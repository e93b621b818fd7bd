//! Text as sequences of characters: trimming, splitting, joining, numbers.

use vstd::prelude::*;
use vstd::string::*;
use vstd::utf8::{decode_utf8, encode_utf8, is_char_boundary, valid_utf8};

verus! {

/// `String::push`: appends one character.
pub assume_specification[ String::push ](s: &mut String, c: char)
    ensures
        final(s)@ == old(s)@.push(c),
;

/// `std::str::from_utf8`, owning the result: valid UTF-8 decodes to the characters it encodes,
/// anything else is refused.
#[verifier::external_body]
pub(crate) fn utf8_text(b: &[u8]) -> (r: Option<String>)
    ensures
        match r {
            Some(s) => valid_utf8(b@) && s@ == decode_utf8(b@),
            None => !valid_utf8(b@),
        },
{
    match std::str::from_utf8(b) {
        Ok(s) => Some(s.to_string()),
        Err(_) => None,
    }
}

/// What `String::from_utf8_lossy` makes of bytes.
pub uninterp spec fn lossy_text(b: Seq<u8>) -> Seq<char>;

/// `String::from_utf8_lossy`: valid UTF-8 decodes to the characters it encodes. How invalid
/// parts are replaced is not stated beyond depending on the bytes alone.
#[verifier::external_body]
pub(crate) fn utf8_lossy_text(b: &[u8]) -> (r: String)
    ensures
        r@ == lossy_text(b@),
        r@ == any_text(b@),
{
    String::from_utf8_lossy(b).into_owned()
}

/// The text that bytes stand for: what they encode, or what `String::from_utf8_lossy` makes of
/// them where they are no valid UTF-8.
pub open spec fn any_text(b: Seq<u8>) -> Seq<char> {
    if valid_utf8(b) {
        decode_utf8(b)
    } else {
        lossy_text(b)
    }
}

/// Whether every character is an ASCII character.
pub open spec fn ascii_only(s: Seq<char>) -> bool {
    forall|i: int| 0 <= i < s.len() ==> (#[trigger] s[i] as u32) < 128
}

/// What `str::to_lowercase` makes of a text.
pub uninterp spec fn lowercase_text(s: Seq<char>) -> Seq<char>;

/// `str::to_lowercase`, by the Unicode lowercase mapping. On ASCII text it lowers the letters
/// and keeps the rest; of other text only that the result depends on the text alone is stated.
#[verifier::external_body]
pub(crate) fn unicode_lowercase(s: &str) -> (r: String)
    ensures
        r@ == lowercase_text(s@),
        ascii_only(s@) ==> r@ == lowered(s@),
{
    s.to_lowercase()
}

// ---- characters -------------------------------------------------------------------------

/// Characters with the Unicode property White_Space.
pub open spec fn is_space(c: char) -> bool {
    let n = c as u32;
    0x9 <= n <= 0xD || n == 0x20 || n == 0x85 || n == 0xA0 || n == 0x1680 || 0x2000 <= n <= 0x200A
        || n == 0x2028 || n == 0x2029 || n == 0x202F || n == 0x205F || n == 0x3000
}

/// ASCII decimal digits.
pub open spec fn is_digit(c: char) -> bool {
    '0' <= c <= '9'
}

/// ASCII upper case letters become lower case; everything else stays.
pub open spec fn lower(c: char) -> char {
    if 'A' <= c <= 'Z' {
        ((c as u32) + 32) as char
    } else {
        c
    }
}

/// The digit character of `d`.
pub open spec fn digit(d: int) -> char {
    (48 + d) as char
}

// ---- sequences of characters ------------------------------------------------------------

/// `s` with its ASCII letters in lower case.
pub open spec fn lowered(s: Seq<char>) -> Seq<char> {
    s.map_values(|c: char| lower(c))
}

/// `s` without leading white space.
pub open spec fn trimmed_front(s: Seq<char>) -> Seq<char>
    decreases s.len(),
{
    if s.len() > 0 && is_space(s[0]) {
        trimmed_front(s.drop_first())
    } else {
        s
    }
}

/// `s` without trailing white space.
pub open spec fn trimmed_back(s: Seq<char>) -> Seq<char>
    decreases s.len(),
{
    if s.len() > 0 && is_space(s.last()) {
        trimmed_back(s.drop_last())
    } else {
        s
    }
}

/// `s` without white space at either end.
pub open spec fn trimmed(s: Seq<char>) -> Seq<char> {
    trimmed_back(trimmed_front(s))
}

/// Whether `pattern` stands in `s` at `i`.
pub open spec fn occurs_at(s: Seq<char>, i: int, pattern: Seq<char>) -> bool {
    0 <= i && i + pattern.len() <= s.len() && s.subrange(i, i + pattern.len()) == pattern
}

/// Whether `s` begins with `prefix`.
pub open spec fn has_prefix(s: Seq<char>, prefix: Seq<char>) -> bool {
    occurs_at(s, 0, prefix)
}

/// The first place at or after `from` where `pattern` stands in `s`.
pub open spec fn find_from(s: Seq<char>, from: int, pattern: Seq<char>) -> Option<int>
    decreases s.len() - from + 1,
{
    if from < 0 || from + pattern.len() > s.len() {
        None
    } else if occurs_at(s, from, pattern) {
        Some(from)
    } else {
        find_from(s, from + 1, pattern)
    }
}

/// Whether `pattern` stands anywhere in `s`.
pub open spec fn contains_text(s: Seq<char>, pattern: Seq<char>) -> bool {
    find_from(s, 0, pattern) is Some
}

/// The first place at or after `from` where `c` stands.
pub open spec fn char_from(s: Seq<char>, from: int, c: char) -> Option<int>
    decreases s.len() - from,
{
    if from < 0 || from >= s.len() {
        None
    } else if s[from] == c {
        Some(from)
    } else {
        char_from(s, from + 1, c)
    }
}

/// The parts of `s` between the characters of `seps`; always at least one part.
pub open spec fn split_any(s: Seq<char>, seps: Seq<char>) -> Seq<Seq<char>>
    decreases s.len(),
{
    if s.len() == 0 {
        seq![Seq::empty()]
    } else {
        let head = split_any(s.drop_last(), seps);
        if seps.contains(s.last()) {
            head.push(Seq::empty())
        } else {
            head.drop_last().push(head.last().push(s.last()))
        }
    }
}

/// The texts one behind the other with `sep` between each two.
pub open spec fn joined(parts: Seq<Seq<char>>, sep: Seq<char>) -> Seq<char>
    decreases parts.len(),
{
    if parts.len() == 0 {
        Seq::empty()
    } else if parts.len() == 1 {
        parts[0]
    } else {
        joined(parts.drop_last(), sep) + sep + parts.last()
    }
}

/// `s` without the characters of `unwanted`.
pub open spec fn without_any(s: Seq<char>, unwanted: Seq<char>) -> Seq<char>
    decreases s.len(),
{
    if s.len() == 0 {
        s
    } else if unwanted.contains(s.last()) {
        without_any(s.drop_last(), unwanted)
    } else {
        without_any(s.drop_last(), unwanted).push(s.last())
    }
}

/// Whether `a` comes before `b` in the order of characters.
pub open spec fn text_less(a: Seq<char>, b: Seq<char>) -> bool
    decreases a.len(),
{
    if b.len() == 0 {
        false
    } else if a.len() == 0 {
        true
    } else if a[0] != b[0] {
        a[0] < b[0]
    } else {
        text_less(a.drop_first(), b.drop_first())
    }
}

/// The texts of a sequence of strings.
pub open spec fn views(v: Seq<String>) -> Seq<Seq<char>> {
    v.map_values(|s: String| s@)
}

// ---- numbers ----------------------------------------------------------------------------

/// `n` in decimal, without leading zeros.
pub open spec fn dec(n: nat) -> Seq<char>
    decreases n,
{
    if n < 10 {
        seq![digit(n as int)]
    } else {
        dec(n / 10).push(digit((n % 10) as int))
    }
}

/// `n` in decimal, with a minus sign if negative.
pub open spec fn dec_signed(n: int) -> Seq<char> {
    if n < 0 {
        seq!['-'] + dec((-n) as nat)
    } else {
        dec(n as nat)
    }
}

/// `n` zeros.
pub open spec fn zeros(n: nat) -> Seq<char> {
    Seq::new(n, |i: int| '0')
}

/// `s` with zeros in front up to `width` characters.
pub open spec fn zero_padded(s: Seq<char>, width: nat) -> Seq<char> {
    if s.len() < width {
        zeros((width - s.len()) as nat) + s
    } else {
        s
    }
}

/// Whether every character is a digit.
pub open spec fn all_digits(s: Seq<char>) -> bool {
    forall|i: int| 0 <= i < s.len() ==> is_digit(#[trigger] s[i])
}

/// The number that a sequence of digits denotes.
pub open spec fn digits_value(s: Seq<char>) -> nat
    decreases s.len(),
{
    if s.len() == 0 {
        0
    } else {
        digits_value(s.drop_last()) * 10 + ((s.last() as u32) - 48) as nat
    }
}

/// The number that a decimal numeral denotes: digits, with an optional plus sign.
pub open spec fn numeral(s: Seq<char>) -> Option<nat> {
    let digits = if s.len() > 0 && s[0] == '+' {
        s.drop_first()
    } else {
        s
    };
    if digits.len() == 0 || !all_digits(digits) {
        None
    } else {
        Some(digits_value(digits))
    }
}

/// A numeral no greater than `max`.
pub open spec fn numeral_up_to(s: Seq<char>, max: nat) -> Option<nat> {
    match numeral(s) {
        Some(n) => if n <= max {
            Some(n)
        } else {
            None
        },
        None => None,
    }
}

// ---- executable counterparts ------------------------------------------------------------

/// The characters of a text.
pub fn chars_of(s: &str) -> (v: Vec<char>)
    ensures
        v@ == s@,
{
    let mut v: Vec<char> = Vec::new();
    for c in it: s.chars()
        invariant
            it.seq() == s@,
            v@ == s@.take(it.index()),
    {
        v.push(c);
        assert(v@ =~= s@.take(it.index() + 1));
    }
    assert(s@.take(s@.len() as int) =~= s@);
    v
}

/// The text made of these characters.
pub fn text_of(cs: &[char]) -> (s: String)
    ensures
        s@ == cs@,
{
    let mut s: String = String::new();
    let mut i: usize = 0;
    while i < cs.len()
        invariant
            i <= cs.len(),
            s@ == cs@.take(i as int),
        decreases cs.len() - i,
    {
        s.push(cs[i]);
        i += 1;
        assert(s@ =~= cs@.take(i as int));
    }
    assert(cs@.take(cs@.len() as int) =~= cs@);
    s
}

/// Whether two sequences of characters are equal.
pub fn same_chars(a: &[char], b: &[char]) -> (r: bool)
    ensures
        r == (a@ == b@),
{
    if a.len() != b.len() {
        return false;
    }
    let mut i: usize = 0;
    while i < a.len()
        invariant
            i <= a.len(),
            a.len() == b.len(),
            forall|k: int| 0 <= k < i ==> a@[k] == b@[k],
        decreases a.len() - i,
    {
        if a[i] != b[i] {
            return false;
        }
        i += 1;
    }
    assert(a@ =~= b@);
    true
}

/// Whether the characters are those of `s`.
pub fn is_text(cs: &[char], s: &str) -> (r: bool)
    ensures
        r == (cs@ == s@),
{
    let other: Vec<char> = chars_of(s);
    same_chars(cs, other.as_slice())
}

/// Whether two texts are equal.
pub fn same_text(a: &str, b: &str) -> (r: bool)
    ensures
        r == (a@ == b@),
{
    let r: bool = crate::bytes::same_bytes(a.as_bytes(), b.as_bytes());
    proof {
        vstd::utf8::encode_utf8_decode_utf8(a@);
        vstd::utf8::encode_utf8_decode_utf8(b@);
    }
    r
}

/// Whether `c` is white space.
pub fn is_white_space(c: char) -> (r: bool)
    ensures
        r == is_space(c),
{
    let n: u32 = c as u32;
    (0x9 <= n && n <= 0xD) || n == 0x20 || n == 0x85 || n == 0xA0 || n == 0x1680 || (0x2000 <= n && n
        <= 0x200A) || n == 0x2028 || n == 0x2029 || n == 0x202F || n == 0x205F || n == 0x3000
}

/// The characters without white space at either end.
pub fn trim_chars(cs: &[char]) -> (r: &[char])
    ensures
        r@ == trimmed(cs@),
        r@.len() <= cs@.len(),
{
    let mut start: usize = 0;
    assert(cs@.subrange(0, cs@.len() as int) =~= cs@);
    while start < cs.len() && is_white_space(cs[start])
        invariant
            start <= cs.len(),
            trimmed_front(cs@) == trimmed_front(cs@.subrange(start as int, cs@.len() as int)),
        decreases cs.len() - start,
    {
        proof {
            let rest = cs@.subrange(start as int, cs@.len() as int);
            assert(rest.drop_first() =~= cs@.subrange(start + 1, cs@.len() as int));
        }
        start += 1;
    }
    assert(trimmed_front(cs@) == cs@.subrange(start as int, cs@.len() as int));
    let mut end: usize = cs.len();
    while end > start && is_white_space(cs[end - 1])
        invariant
            start <= end <= cs.len(),
            trimmed(cs@) == trimmed_back(cs@.subrange(start as int, end as int)),
        decreases end,
    {
        proof {
            let rest = cs@.subrange(start as int, end as int);
            assert(rest.drop_last() =~= cs@.subrange(start as int, end - 1));
        }
        end -= 1;
    }
    &cs[start..end]
}

/// A text without white space at either end.
pub fn trim_text(s: &str) -> (r: String)
    ensures
        r@ == trimmed(s@),
{
    let cs: Vec<char> = chars_of(s);
    text_of(trim_chars(cs.as_slice()))
}

/// An ASCII upper case letter in lower case, anything else as it is.
pub fn lower_char(c: char) -> (r: char)
    ensures
        r == lower(c),
{
    if 'A' <= c && c <= 'Z' {
        ((c as u8) + 32) as char
    } else {
        c
    }
}

/// The characters with ASCII letters in lower case.
pub fn lower_chars(cs: &[char]) -> (v: Vec<char>)
    ensures
        v@ == lowered(cs@),
{
    let mut v: Vec<char> = Vec::new();
    let mut i: usize = 0;
    while i < cs.len()
        invariant
            i <= cs.len(),
            v@ == lowered(cs@.take(i as int)),
        decreases cs.len() - i,
    {
        v.push(lower_char(cs[i]));
        i += 1;
        assert(v@ =~= lowered(cs@.take(i as int)));
    }
    assert(cs@.take(cs@.len() as int) =~= cs@);
    v
}

/// Whether `pattern` stands in `cs` at `i`.
pub fn stands_at(cs: &[char], i: usize, pattern: &[char]) -> (r: bool)
    ensures
        r == occurs_at(cs@, i as int, pattern@),
{
    if i > cs.len() || pattern.len() > cs.len() - i {
        return false;
    }
    same_chars(&cs[i..i + pattern.len()], pattern)
}

/// Finds the first place at or after `from` where `pattern` stands.
pub fn find_chars(cs: &[char], from: usize, pattern: &[char]) -> (r: Option<usize>)
    requires
        from <= cs.len(),
    ensures
        match r {
            Some(i) => find_from(cs@, from as int, pattern@) == Some(i as int) && from <= i && i
                + pattern@.len() <= cs@.len(),
            None => find_from(cs@, from as int, pattern@) is None,
        },
{
    let mut i: usize = from;
    while i <= cs.len() && pattern.len() <= cs.len() - i
        invariant
            from <= i <= cs.len() + 1,
            find_from(cs@, from as int, pattern@) == find_from(cs@, i as int, pattern@),
        decreases cs.len() + 1 - i,
    {
        if stands_at(cs, i, pattern) {
            return Some(i);
        }
        if i == cs.len() {
            assert(cs@.subrange(i as int, i as int) =~= pattern@);
        }
        i += 1;
    }
    None
}

/// Whether `pattern` stands anywhere in `s`.
pub fn text_contains(s: &str, pattern: &str) -> (r: bool)
    ensures
        r == contains_text(s@, pattern@),
{
    let cs: Vec<char> = chars_of(s);
    let p: Vec<char> = chars_of(pattern);
    find_chars(cs.as_slice(), 0, p.as_slice()).is_some()
}

/// Finds the first place at or after `from` where `c` stands.
pub fn find_char(cs: &[char], from: usize, c: char) -> (r: Option<usize>)
    requires
        from <= cs.len(),
    ensures
        match r {
            Some(i) => char_from(cs@, from as int, c) == Some(i as int) && from <= i < cs.len(),
            None => char_from(cs@, from as int, c) is None,
        },
{
    let mut i: usize = from;
    while i < cs.len()
        invariant
            from <= i <= cs.len(),
            char_from(cs@, from as int, c) == char_from(cs@, i as int, c),
        decreases cs.len() - i,
    {
        if cs[i] == c {
            return Some(i);
        }
        i += 1;
    }
    None
}

/// Whether `c` is among `cs`.
pub fn has_char(cs: &[char], c: char) -> (r: bool)
    ensures
        r == cs@.contains(c),
{
    let mut i: usize = 0;
    while i < cs.len()
        invariant
            i <= cs.len(),
            forall|k: int| 0 <= k < i ==> cs@[k] != c,
        decreases cs.len() - i,
    {
        if cs[i] == c {
            assert(cs@[i as int] == c);
            return true;
        }
        i += 1;
    }
    false
}

/// The parts between the characters of `seps`.
pub fn split_chars(cs: &[char], seps: &[char]) -> (parts: Vec<Vec<char>>)
    ensures
        parts@.map_values(|p: Vec<char>| p@) == split_any(cs@, seps@),
{
    let mut parts: Vec<Vec<char>> = Vec::new();
    let mut part: Vec<char> = Vec::new();
    let mut i: usize = 0;
    assert(parts@.map_values(|p: Vec<char>| p@).push(part@) =~= split_any(cs@.take(0), seps@));
    while i < cs.len()
        invariant
            i <= cs.len(),
            parts@.map_values(|p: Vec<char>| p@).push(part@) == split_any(cs@.take(i as int), seps@),
        decreases cs.len() - i,
    {
        let ghost done = parts@.map_values(|p: Vec<char>| p@);
        let ghost last = part@;
        proof {
            let next = cs@.take(i + 1);
            assert(next.drop_last() =~= cs@.take(i as int));
            assert(next.last() == cs@[i as int]);
            assert(done.push(last).drop_last() =~= done);
            assert(done.push(last).last() == last);
        }
        if has_char(seps, cs[i]) {
            parts.push(part);
            part = Vec::new();
            assert(parts@.map_values(|p: Vec<char>| p@) =~= done.push(last));
        } else {
            part.push(cs[i]);
        }
        i += 1;
    }
    assert(cs@.take(cs@.len() as int) =~= cs@);
    let ghost done = parts@.map_values(|p: Vec<char>| p@);
    let ghost last = part@;
    parts.push(part);
    assert(parts@.map_values(|p: Vec<char>| p@) =~= done.push(last));
    parts
}

/// The characters without those of `unwanted`.
pub fn drop_chars(cs: &[char], unwanted: &[char]) -> (v: Vec<char>)
    ensures
        v@ == without_any(cs@, unwanted@),
{
    let mut v: Vec<char> = Vec::new();
    let mut i: usize = 0;
    while i < cs.len()
        invariant
            i <= cs.len(),
            v@ == without_any(cs@.take(i as int), unwanted@),
        decreases cs.len() - i,
    {
        proof {
            let next = cs@.take(i + 1);
            assert(next.drop_last() =~= cs@.take(i as int));
            assert(next.last() == cs@[i as int]);
        }
        if !has_char(unwanted, cs[i]) {
            v.push(cs[i]);
        }
        i += 1;
    }
    assert(cs@.take(cs@.len() as int) =~= cs@);
    v
}

/// The texts one behind the other with `sep` between each two.
pub fn join_texts(parts: &[String], sep: &str) -> (s: String)
    ensures
        s@ == joined(views(parts@), sep@),
{
    let mut s: String = String::new();
    let mut i: usize = 0;
    assert(views(parts@.take(0)) =~= Seq::<Seq<char>>::empty());
    while i < parts.len()
        invariant
            i <= parts.len(),
            s@ == joined(views(parts@.take(i as int)), sep@),
        decreases parts.len() - i,
    {
        proof {
            let next = views(parts@.take(i + 1));
            assert(next.drop_last() =~= views(parts@.take(i as int)));
            assert(next.last() == parts@[i as int]@);
        }
        if i > 0 {
            s.append(sep);
        }
        s.append(parts[i].as_str());
        assert(i == 0 ==> s@ =~= parts@[0]@);
        i += 1;
    }
    assert(parts@.take(parts@.len() as int) =~= parts@);
    s
}

/// A text equal to `s`.
pub fn copy_text(s: &str) -> (r: String)
    ensures
        r@ == s@,
{
    s.to_owned()
}

/// Copies a sequence of texts.
pub fn copy_texts(v: &[String]) -> (r: Vec<String>)
    ensures
        views(r@) == views(v@),
{
    let mut r: Vec<String> = Vec::new();
    let mut i: usize = 0;
    while i < v.len()
        invariant
            i <= v.len(),
            r@.len() == i,
            forall|k: int| 0 <= k < i ==> (#[trigger] r@[k])@ == v@[k]@,
        decreases v.len() - i,
    {
        r.push(v[i].clone());
        i += 1;
    }
    assert(views(r@) =~= views(v@));
    r
}

/// Appends `n` in decimal.
pub fn push_dec(s: &mut String, n: u64)
    ensures
        final(s)@ == old(s)@ + dec(n as nat),
    decreases n,
{
    let d: u8 = 48 + (n % 10) as u8;
    if n >= 10 {
        push_dec(s, n / 10);
    }
    s.push(d as char);
    assert(s@ =~= old(s)@ + dec(n as nat));
}

/// `n` in decimal.
pub fn dec_text(n: u64) -> (s: String)
    ensures
        s@ == dec(n as nat),
{
    let mut s: String = String::new();
    push_dec(&mut s, n);
    assert(s@ =~= dec(n as nat));
    s
}

/// Appends `n` in decimal, with a minus sign if negative.
pub fn push_signed(s: &mut String, n: i64)
    ensures
        final(s)@ == old(s)@ + dec_signed(n as int),
{
    if n < 0 {
        s.push('-');
        let m: u64 = if n == i64::MIN { 0x8000_0000_0000_0000 } else { (0 - n) as u64 };
        push_dec(s, m);
        assert(s@ =~= old(s)@ + dec_signed(n as int));
    } else {
        push_dec(s, n as u64);
    }
}

/// Appends `n` in decimal with zeros in front up to `width` characters.
pub fn push_padded(s: &mut String, n: u64, width: usize)
    ensures
        final(s)@ == old(s)@ + zero_padded(dec(n as nat), width as nat),
{
    let digits: String = dec_text(n);
    let len: usize = digits.as_str().unicode_len();
    let mut k: usize = len;
    while k < width
        invariant
            len <= k,
            len == dec(n as nat).len(),
            len >= width ==> k == len,
            len < width ==> k <= width,
            s@ == old(s)@ + zeros((k - len) as nat),
        decreases width - k,
    {
        s.push('0');
        k += 1;
        assert(s@ =~= old(s)@ + zeros((k - len) as nat));
    }
    s.append(digits.as_str());
    assert(s@ =~= old(s)@ + zero_padded(dec(n as nat), width as nat));
}

proof fn lemma_value_grows(s: Seq<char>, i: int)
    requires
        0 <= i <= s.len(),
        all_digits(s),
    ensures
        digits_value(s.take(i)) <= digits_value(s),
    decreases s.len() - i,
{
    if i < s.len() {
        let next = s.take(i + 1);
        assert(next.drop_last() =~= s.take(i));
        assert(is_digit(next.last())) by {
            assert(next.last() == s[i]);
        }
        lemma_value_grows(s, i + 1);
    } else {
        assert(s.take(i) =~= s);
    }
}

/// Reads a numeral that is at most `max`.
pub fn parse_number(cs: &[char], max: u64) -> (r: Option<u64>)
    ensures
        match r {
            Some(n) => numeral_up_to(cs@, max as nat) == Some(n as nat),
            None => numeral_up_to(cs@, max as nat) is None,
        },
{
    let start: usize = if cs.len() > 0 && cs[0] == '+' { 1 } else { 0 };
    let ghost digits = cs@.subrange(start as int, cs@.len() as int);
    proof {
        if start == 1 {
            assert(digits =~= cs@.drop_first());
        } else {
            assert(digits =~= cs@);
        }
    }
    if start == cs.len() {
        return None;
    }
    let mut i: usize = start;
    while i < cs.len()
        invariant
            start <= i <= cs.len(),
            digits == cs@.subrange(start as int, cs@.len() as int),
            !all_digits(digits) ==> numeral(cs@) is None,
            forall|k: int| 0 <= k < i - start ==> is_digit(#[trigger] digits[k]),
        decreases cs.len() - i,
    {
        if cs[i] < '0' || cs[i] > '9' {
            assert(!is_digit(digits[i - start]));
            return None;
        }
        i += 1;
    }
    let mut value: u64 = 0;
    i = start;
    while i < cs.len()
        invariant
            start <= i <= cs.len(),
            digits == cs@.subrange(start as int, cs@.len() as int),
            digits.len() > 0,
            all_digits(digits),
            numeral(cs@) == Some(digits_value(digits)),
            value == digits_value(digits.take(i - start)),
            value <= max,
        decreases cs.len() - i,
    {
        assert(digits[i - start] == cs@[i as int]);
        assert(is_digit(digits[i - start]));
        let d: u64 = (cs[i] as u64) - 48;
        proof {
            let next = digits.take(i - start + 1);
            assert(next.drop_last() =~= digits.take(i - start));
            assert(next.last() == cs@[i as int]);
            lemma_value_grows(digits, i - start + 1);
        }
        if value > max / 10 || d > max || value * 10 > max - d {
            return None;
        }
        value = value * 10 + d;
        i += 1;
    }
    assert(digits.take(digits.len() as int) =~= digits);
    Some(value)
}

/// Whether `a` comes before `b` in the order of characters.
pub fn chars_less(a: &[char], b: &[char]) -> (r: bool)
    ensures
        r == text_less(a@, b@),
{
    let mut i: usize = 0;
    assert(a@.skip(0) =~= a@);
    assert(b@.skip(0) =~= b@);
    while i < a.len() && i < b.len()
        invariant
            i <= a.len(),
            i <= b.len(),
            text_less(a@, b@) == text_less(a@.skip(i as int), b@.skip(i as int)),
        decreases a.len() - i,
    {
        assert(a@.skip(i as int)[0] == a@[i as int]);
        assert(b@.skip(i as int)[0] == b@[i as int]);
        if a[i] != b[i] {
            return a[i] < b[i];
        }
        proof {
            assert(a@.skip(i as int).drop_first() =~= a@.skip(i + 1));
            assert(b@.skip(i as int).drop_first() =~= b@.skip(i + 1));
        }
        i += 1;
    }
    i < b.len()
}

/// Whether `s` is among the texts.
pub fn has_text(v: &[String], s: &str) -> (r: bool)
    ensures
        r == views(v@).contains(s@),
{
    let ghost all = views(v@);
    let mut i: usize = 0;
    while i < v.len()
        invariant
            i <= v.len(),
            all == views(v@),
            forall|k: int| 0 <= k < i ==> #[trigger] all[k] != s@,
        decreases v.len() - i,
    {
        assert(all[i as int] == v@[i as int]@);
        if same_text(v[i].as_str(), s) {
            assert(all[i as int] == s@);
            return true;
        }
        i += 1;
    }
    false
}

/// The text between two byte positions of `s`.
pub open spec fn byte_slice(s: Seq<char>, from: int, to: int) -> Seq<char> {
    decode_utf8(encode_utf8(s).subrange(from, to))
}

/// The bytes between two character boundaries are valid UTF-8.
proof fn lemma_valid_slice(b: Seq<u8>, from: int, to: int)
    requires
        valid_utf8(b),
        0 <= from <= to <= b.len(),
        is_char_boundary(b, from),
        is_char_boundary(b, to),
    ensures
        valid_utf8(b.subrange(from, to)),
{
    let head = b.subrange(0, to);
    vstd::utf8::valid_utf8_split(b, to);
    if from == to {
        vstd::utf8::is_char_boundary_start_end_of_seq(head);
    } else {
        vstd::utf8::is_char_boundary_iff_not_is_continuation_byte(b, from);
        vstd::utf8::is_char_boundary_iff_not_is_continuation_byte(head, from);
    }
    assert(is_char_boundary(head, from));
    vstd::utf8::valid_utf8_split(head, from);
    assert(head.subrange(from, head.len() as int) =~= b.subrange(from, to));
}

/// Takes the text between two byte positions out of `s`.
pub fn slice_bytes(s: &str, from: usize, to: usize) -> (r: String)
    requires
        from <= to <= encode_utf8(s@).len(),
        is_char_boundary(encode_utf8(s@), from as int),
        is_char_boundary(encode_utf8(s@), to as int),
    ensures
        r@ == byte_slice(s@, from as int, to as int),
{
    proof {
        vstd::utf8::encode_utf8_valid_utf8(s@);
        lemma_valid_slice(encode_utf8(s@), from as int, to as int);
    }
    match utf8_text(&s.as_bytes()[from..to]) {
        Some(r) => r,
        None => String::new(),
    }
}

/// `s` without zero characters at its end.
pub open spec fn without_zeros(s: Seq<char>) -> Seq<char>
    decreases s.len(),
{
    if s.len() > 0 && s.last() == '\0' {
        without_zeros(s.drop_last())
    } else {
        s
    }
}

/// The characters without zero characters at their end.
pub fn drop_zeros(cs: &[char]) -> (r: &[char])
    ensures
        r@ == without_zeros(cs@),
{
    let mut end: usize = cs.len();
    assert(cs@.take(cs@.len() as int) =~= cs@);
    while end > 0 && cs[end - 1] == '\0'
        invariant
            end <= cs.len(),
            without_zeros(cs@) == without_zeros(cs@.take(end as int)),
        decreases end,
    {
        assert(cs@.take(end as int).drop_last() =~= cs@.take(end - 1));
        end -= 1;
    }
    assert(cs@.subrange(0, end as int) =~= cs@.take(end as int));
    &cs[0..end]
}

/// A text followed by a zero is read as the text followed by a zero.
pub proof fn lemma_zero_ended(s: Seq<char>)
    ensures
        valid_utf8(encode_utf8(s) + seq![0u8]),
        any_text(encode_utf8(s) + seq![0u8]) == s.push('\0'),
{
    let b = encode_utf8(s);
    let z = seq!['\0'];
    let zero = seq![0u8];
    let c = b + zero;
    vstd::utf8::encode_utf8_valid_utf8(s);
    vstd::utf8::encode_utf8_decode_utf8(s);
    assert(encode_utf8(z) =~= zero) by {
        assert(z.drop_first() =~= Seq::<char>::empty());
        assert(encode_utf8(z.drop_first()) =~= Seq::<u8>::empty());
        assert(vstd::utf8::encode_scalar(0) =~= zero) by {
            assert(0u32 & 0x7Fu32 == 0) by (bit_vector);
        }
    }
    vstd::utf8::encode_utf8_valid_utf8(z);
    vstd::utf8::encode_utf8_decode_utf8(z);
    vstd::utf8::valid_utf8_concat(b, zero);
    let n = b.len() as int;
    assert(c[n] == 0);
    vstd::utf8::is_char_boundary_iff_not_is_continuation_byte(c, n);
    assert(!vstd::utf8::is_continuation_byte(0u8));
    vstd::utf8::decode_utf8_split(c, n);
    assert(c.subrange(0, n) =~= b);
    assert(c.subrange(n, c.len() as int) =~= zero);
    assert(s + z =~= s.push('\0'));
}

/// A hexadecimal digit.
pub open spec fn hex_digit(d: int) -> char {
    if d < 10 {
        (48 + d) as char
    } else {
        (55 + d) as char
    }
}

/// A 16-bit number as four hexadecimal digits.
pub open spec fn hex4(n: int) -> Seq<char> {
    seq![hex_digit(n / 4096 % 16), hex_digit(n / 256 % 16), hex_digit(n / 16 % 16), hex_digit(n % 16)]
}

fn hex_char(d: u16) -> (c: char)
    requires
        d < 16,
    ensures
        c == hex_digit(d as int),
{
    if d < 10 {
        (48 + d as u8) as char
    } else {
        (55 + d as u8) as char
    }
}

/// Appends a 16-bit number as four hexadecimal digits.
pub fn push_hex4(s: &mut String, n: u16)
    ensures
        final(s)@ == old(s)@ + hex4(n as int),
{
    s.push(hex_char(n / 4096 % 16));
    s.push(hex_char(n / 256 % 16));
    s.push(hex_char(n / 16 % 16));
    s.push(hex_char(n % 16));
    assert(s@ =~= old(s)@ + hex4(n as int));
}

/// Without zeros at its end, a text does not end with a zero.
pub proof fn lemma_without_zeros(s: Seq<char>)
    ensures
        without_zeros(s).len() > 0 ==> without_zeros(s).last() != '\0',
        without_zeros(s).len() <= s.len(),
    decreases s.len(),
{
    if s.len() > 0 && s.last() == '\0' {
        lemma_without_zeros(s.drop_last());
    }
}

/// The bytes of a text end with a zero only where the text does.
pub proof fn lemma_last_zero(s: Seq<char>)
    ensures
        encode_utf8(s).len() > 0 && encode_utf8(s).last() == 0 ==> s.len() > 0 && s.last() == '\0',
{
    let b = encode_utf8(s);
    if b.len() > 0 && b.last() == 0 {
        let n = b.len() - 1;
        let zero = seq![0u8];
        vstd::utf8::encode_utf8_valid_utf8(s);
        vstd::utf8::encode_utf8_decode_utf8(s);
        vstd::utf8::is_char_boundary_iff_not_is_continuation_byte(b, n);
        assert(!vstd::utf8::is_continuation_byte(0u8));
        vstd::utf8::decode_utf8_split(b, n);
        assert(b.subrange(n, b.len() as int) =~= zero);
        lemma_zero_ended(Seq::empty());
        vstd::utf8::encode_utf8_decode_utf8(Seq::empty());
        assert(encode_utf8(Seq::<char>::empty()) =~= Seq::<u8>::empty());
        assert(Seq::<u8>::empty() + zero =~= zero);
        assert(decode_utf8(zero) == Seq::<char>::empty().push('\0'));
    }
}

/// The number that a numeral with an optional sign denotes.
pub open spec fn signed_numeral(s: Seq<char>) -> Option<int> {
    if s.len() > 0 && s[0] == '-' {
        let digits = s.drop_first();
        if digits.len() == 0 || !all_digits(digits) {
            None
        } else {
            Some(-(digits_value(digits) as int))
        }
    } else {
        match numeral(s) {
            Some(n) => Some(n as int),
            None => None,
        }
    }
}

/// A signed numeral in a range.
pub open spec fn signed_within(s: Seq<char>, min: int, max: int) -> Option<int> {
    match signed_numeral(s) {
        Some(n) => if min <= n <= max {
            Some(n)
        } else {
            None
        },
        None => None,
    }
}

/// Reads a signed numeral from -`bound` - 1 to `bound`.
pub fn parse_signed(cs: &[char], bound: i64) -> (r: Option<i64>)
    requires
        bound >= 0,
    ensures
        match r {
            Some(n) => signed_within(cs@, -bound - 1, bound as int) == Some(n as int),
            None => signed_within(cs@, -bound - 1, bound as int) is None,
        },
{
    if cs.len() > 0 && cs[0] == '-' {
        let digits: &[char] = &cs[1..cs.len()];
        assert(digits@ =~= cs@.drop_first());
        if digits.len() > 0 && digits[0] == '+' {
            assert(!is_digit(digits@[0]));
            return None;
        }
        match parse_number(digits, bound as u64 + 1) {
            Some(n) => if n == bound as u64 + 1 {
                Some(-bound - 1)
            } else {
                Some(-(n as i64))
            },
            None => None,
        }
    } else {
        match parse_number(cs, bound as u64) {
            Some(n) => Some(n as i64),
            None => None,
        }
    }
}

/// The texts, each without white space around it, that are not empty then.
pub open spec fn filled(parts: Seq<Seq<char>>) -> Seq<Seq<char>>
    decreases parts.len(),
{
    if parts.len() == 0 {
        parts
    } else if trimmed(parts.last()).len() == 0 {
        filled(parts.drop_last())
    } else {
        filled(parts.drop_last()).push(trimmed(parts.last()))
    }
}

/// Splits a text at separators into parts that are trimmed and not empty.
pub fn split_filled(s: &str, seps: &[char]) -> (out: Vec<String>)
    ensures
        views(out@) == filled(split_any(s@, seps@)),
{
    let cs: Vec<char> = chars_of(s);
    let parts: Vec<Vec<char>> = split_chars(cs.as_slice(), seps);
    let ghost all = split_any(s@, seps@);
    let mut out: Vec<String> = Vec::new();
    let mut i: usize = 0;
    assert(views(out@) =~= filled(all.take(0)));
    while i < parts.len()
        invariant
            i <= parts.len(),
            parts@.map_values(|p: Vec<char>| p@) == all,
            views(out@) == filled(all.take(i as int)),
        decreases parts.len() - i,
    {
        proof {
            assert(all[i as int] == parts@.map_values(|p: Vec<char>| p@)[i as int]);
            assert(all.take(i + 1).drop_last() =~= all.take(i as int));
            assert(all.take(i + 1).last() == parts@[i as int]@);
        }
        let part: &[char] = trim_chars(parts[i].as_slice());
        if part.len() > 0 {
            let ghost before = views(out@);
            out.push(text_of(part));
            assert(views(out@) =~= before.push(part@));
        }
        i += 1;
    }
    assert(all.take(all.len() as int) =~= all);
    out
}

/// A text before and after the first `c` in it.
pub open spec fn cut_at(s: Seq<char>, c: char) -> Option<(Seq<char>, Seq<char>)> {
    match char_from(s, 0, c) {
        Some(i) => Some((s.subrange(0, i), s.subrange(i + 1, s.len() as int))),
        None => None,
    }
}

/// Cuts a text at the first `c` in it.
pub fn split_once(s: &str, c: char) -> (r: Option<(String, String)>)
    ensures
        match r {
            Some((a, b)) => cut_at(s@, c) == Some((a@, b@)),
            None => cut_at(s@, c) is None,
        },
{
    let cs: Vec<char> = chars_of(s);
    match find_char(cs.as_slice(), 0, c) {
        Some(i) => Some((text_of(&cs.as_slice()[0..i]), text_of(&cs.as_slice()[i + 1..cs.len()]))),
        None => None,
    }
}

/// `n` spaces.
pub open spec fn spaces(n: nat) -> Seq<char> {
    Seq::new(n, |i: int| ' ')
}

/// `s` with spaces behind it up to `width` characters.
pub open spec fn padded_right(s: Seq<char>, width: nat) -> Seq<char> {
    if s.len() < width {
        s + spaces((width - s.len()) as nat)
    } else {
        s
    }
}

/// Appends a text with spaces behind it up to `width` characters.
pub fn push_padded_right(out: &mut String, s: &str, width: usize)
    ensures
        final(out)@ == old(out)@ + padded_right(s@, width as nat),
{
    let ghost start = out@;
    out.append(s);
    let cs: Vec<char> = chars_of(s);
    let mut n: usize = cs.len();
    assert(out@ =~= start + s@ + spaces(0));
    while n < width
        invariant
            cs@ == s@,
            cs.len() <= n,
            n <= width || n == cs.len(),
            out@ == start + s@ + spaces((n - cs.len()) as nat),
        decreases width - n,
    {
        out.push(' ');
        assert(spaces((n - cs.len()) as nat).push(' ') =~= spaces((n + 1 - cs.len()) as nat));
        assert(out@ =~= start + s@ + spaces((n + 1 - cs.len()) as nat));
        n += 1;
    }
    assert(out@ =~= start + padded_right(s@, width as nat));
}

/// Whether a text is empty.
pub fn is_blank(s: &str) -> (r: bool)
    ensures
        r == (s@.len() == 0),
{
    let r: bool = same_text(s, "");
    proof {
        reveal_strlit("");
        if s@.len() == 0 {
            assert(s@ =~= ""@);
        }
    }
    r
}

/// `s` where it applies, else nothing.
pub open spec fn when(applies: bool, s: Seq<char>) -> Seq<char> {
    if applies {
        s
    } else {
        Seq::empty()
    }
}

/// The texts of optional texts.
pub open spec fn opt(s: Option<String>) -> Option<Seq<char>> {
    match s {
        Some(s) => Some(s@),
        None => None,
    }
}

/// Appends a text where it applies.
pub fn push_when(out: &mut String, applies: bool, s: &str)
    ensures
        final(out)@ == old(out)@ + when(applies, s@),
{
    let ghost before = out@;
    if applies {
        out.append(s);
    }
    assert(out@ =~= before + when(applies, s@));
}

/// A list of one text where it applies, else an empty one.
pub open spec fn when_listed(applies: bool, s: Seq<char>) -> Seq<Seq<char>> {
    if applies {
        seq![s]
    } else {
        Seq::empty()
    }
}

} // verus!
