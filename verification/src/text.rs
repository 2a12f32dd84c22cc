//! Byte-level views of source text and the string operations the passes use.
use vstd::prelude::*;
use vstd::utf8::*;
use vstd::string::StringSliceAdditionalSpecFns;

verus! {

broadcast use vstd::utf8::encode_utf8_valid_utf8;

/// The UTF-8 bytes of a string slice.
pub open spec fn bytes(s: &str) -> Seq<u8> {
    s.spec_bytes()
}

/// `start..end` lies within `bytes` and both ends are character boundaries.
pub open spec fn slice_ok(bytes: Seq<u8>, start: int, end: int) -> bool {
    &&& 0 <= start <= end <= bytes.len()
    &&& is_char_boundary(bytes, start)
    &&& is_char_boundary(bytes, end)
}

/// A character boundary of `b` at or after `s` is a character boundary of
/// the suffix of `b` that starts at the boundary `s`.
pub proof fn lemma_boundary_of_suffix(b: Seq<u8>, s: int, e: int)
    requires
        valid_utf8(b),
        0 <= s <= e <= b.len(),
        is_char_boundary(b, s),
        is_char_boundary(b, e),
    ensures
        valid_utf8(b.subrange(s, b.len() as int)),
        is_char_boundary(b.subrange(s, b.len() as int), e - s),
{
    let r = b.subrange(s, b.len() as int);
    valid_utf8_split(b, s);
    is_char_boundary_start_end_of_seq(r);
    if e < b.len() {
        is_char_boundary_iff_not_is_continuation_byte(b, e);
        is_char_boundary_iff_not_is_continuation_byte(r, e - s);
    }
}

/// The sub-slice `s[start..end]`, when that range is within `s` and both
/// ends are character boundaries (as `str::get` gives it).
pub fn str_get<'a>(s: &'a str, start: usize, end: usize) -> (r: Option<&'a str>)
    ensures
        r is Some <==> slice_ok(s.spec_bytes(), start as int, end as int),
        r matches Some(t) ==> t.spec_bytes() == s.spec_bytes().subrange(start as int, end as int),
{
    let n = s.as_bytes().len();
    if start > end || end > n {
        return None;
    }
    if !s.is_char_boundary(start) || !s.is_char_boundary(end) {
        return None;
    }
    proof {
        lemma_boundary_of_suffix(s.spec_bytes(), start as int, end as int);
    }
    let (_, rest) = s.split_at(start);
    let (mid, _) = rest.split_at(end - start);
    proof {
        assert(mid.spec_bytes() =~= s.spec_bytes().subrange(start as int, end as int));
    }
    Some(mid)
}


/// The UTF-8 bytes of an owned string.
pub open spec fn sbytes(s: &String) -> Seq<u8> {
    encode_utf8(s@)
}

/// Encoding a concatenation of characters concatenates their encodings.
pub proof fn lemma_encode_concat(a: Seq<char>, b: Seq<char>)
    ensures
        encode_utf8(a + b) == encode_utf8(a) + encode_utf8(b),
    decreases a.len(),
{
    if a.len() == 0 {
        assert(a + b =~= b);
        assert(encode_utf8(a) + encode_utf8(b) =~= encode_utf8(b));
    } else {
        assert((a + b).drop_first() =~= a.drop_first() + b);
        lemma_encode_concat(a.drop_first(), b);
        assert(encode_utf8(a + b) =~= encode_utf8(a) + encode_utf8(b));
    }
}

/// The width of the character whose leading byte is `b`, for the leading
/// bytes of one, two and three byte encodings.
pub open spec fn leading_width(b: u8) -> int {
    if b < 0x80 {
        1
    } else if 0xc0 <= b <= 0xdf {
        2
    } else if 0xe0 <= b <= 0xef {
        3
    } else {
        4
    }
}

/// A character boundary followed by a whole character gives the next boundary.
pub proof fn lemma_boundary_after_char(b: Seq<u8>, k: int)
    requires
        valid_utf8(b),
        0 <= k < b.len(),
        is_char_boundary(b, k),
        b[k] < 0x80 || 0xc0 <= b[k] <= 0xef,
    ensures
        k + leading_width(b[k]) <= b.len(),
        is_char_boundary(b, k + leading_width(b[k])),
{
    is_char_boundary_start_end_of_seq(b);
    lemma_boundary_of_suffix(b, k, b.len() as int);
    let r = b.subrange(k, b.len() as int);
    assert(r[0] == b[k]);
    assert(valid_first_scalar(r));
    let w = length_of_first_scalar(r);
    assert(w == leading_width(b[k]));
    assert(is_char_boundary(r, w)) by {
        reveal_with_fuel(is_char_boundary, 2);
        is_char_boundary_start_end_of_seq(pop_first_scalar(r));
    }
    is_char_boundary_start_end_of_seq(b);
    if k + w < b.len() {
        is_char_boundary_iff_not_is_continuation_byte(r, w);
        is_char_boundary_iff_not_is_continuation_byte(b, k + w);
        assert(r[w] == b[k + w]);
    }
}

/// A byte that is not a UTF-8 continuation byte starts a character.
pub proof fn lemma_boundary_at(b: Seq<u8>, k: int)
    requires
        valid_utf8(b),
        0 <= k <= b.len(),
        k < b.len() ==> !is_continuation_byte(b[k]),
    ensures
        is_char_boundary(b, k),
{
    is_char_boundary_start_end_of_seq(b);
    if k < b.len() {
        is_char_boundary_iff_not_is_continuation_byte(b, k);
    }
}

/// An ASCII byte is a whole character: both of its ends are boundaries.
pub proof fn lemma_ascii_boundaries(b: Seq<u8>, k: int)
    requires
        valid_utf8(b),
        0 <= k < b.len(),
        b[k] < 0x80,
    ensures
        is_char_boundary(b, k),
        is_char_boundary(b, k + 1),
{
    lemma_boundary_at(b, k);
    lemma_boundary_after_char(b, k);
}

/// `s[start..end]`, for a range whose ends are character boundaries.
pub fn substr<'a>(s: &'a str, start: usize, end: usize) -> (r: &'a str)
    requires
        slice_ok(bytes(s), start as int, end as int),
    ensures
        bytes(r) == bytes(s).subrange(start as int, end as int),
{
    match str_get(s, start, end) {
        Some(t) => t,
        None => {
            proof {
                assert(false);
            }
            s
        },
    }
}

/// Appends `t` to `s`, in bytes.
pub fn push_str(s: &mut String, t: &str)
    ensures
        sbytes(final(s)) == sbytes(old(s)) + bytes(t),
        final(s)@ == old(s)@ + t@,
{
    proof {
        lemma_encode_concat(old(s)@, t@);
    }
    s.append(t);
}

/// A fresh owned copy of a string slice.
pub fn to_owned_string(t: &str) -> (s: String)
    ensures
        s@ == t@,
        sbytes(&s) == bytes(t),
{
    t.to_owned()
}

/// An identifier byte: an ASCII letter, digit or underscore.
pub open spec fn is_ident_byte(b: u8) -> bool {
    (0x30 <= b <= 0x39) || (0x41 <= b <= 0x5a) || (0x61 <= b <= 0x7a) || b == 0x5f
}

pub fn ident_byte(b: u8) -> (r: bool)
    ensures
        r == is_ident_byte(b),
{
    (0x30 <= b && b <= 0x39) || (0x41 <= b && b <= 0x5a) || (0x61 <= b && b <= 0x7a) || b == 0x5f
}

/// `pat` occurs in `hay` at byte offset `i`.
pub open spec fn matches_at(hay: Seq<u8>, pat: Seq<u8>, i: int) -> bool {
    &&& 0 <= i
    &&& i + pat.len() <= hay.len()
    &&& hay.subrange(i, i + pat.len()) == pat
}

/// `i` is the first occurrence of `pat` in `hay` at or after `from`.
pub open spec fn first_match_from(hay: Seq<u8>, pat: Seq<u8>, from: int, i: int) -> bool {
    &&& from <= i
    &&& matches_at(hay, pat, i)
    &&& forall|j: int| from <= j < i ==> !matches_at(hay, pat, j)
}

/// The result of searching `hay` for `pat` from `from` on.
pub open spec fn found_from(hay: Seq<u8>, pat: Seq<u8>, from: int, r: Option<usize>) -> bool {
    match r {
        Some(i) => first_match_from(hay, pat, from, i as int),
        None => forall|j: int| from <= j ==> !matches_at(hay, pat, j),
    }
}

/// Whether `pat` occurs in `hay` at offset `i`.
pub fn match_at(hay: &[u8], pat: &[u8], i: usize) -> (r: bool)
    ensures
        r == matches_at(hay@, pat@, i as int),
{
    if i > hay.len() || pat.len() > hay.len() - i {
        return false;
    }
    let mut k: usize = 0;
    while k < pat.len()
        invariant
            i + pat@.len() <= hay@.len(),
            hay.len() == hay@.len(),
            k <= pat@.len(),
            forall|m: int| 0 <= m < k ==> hay@[i + m] == pat@[m],
        decreases pat.len() - k,
    {
        if hay[i + k] != pat[k] {
            assert(hay@.subrange(i as int, i + pat@.len())[k as int] != pat@[k as int]);
            return false;
        }
        k += 1;
    }
    assert(hay@.subrange(i as int, i + pat@.len()) =~= pat@);
    true
}

/// The first occurrence of `pat` in `hay` at or after `from`.
pub fn find_bytes(hay: &[u8], pat: &[u8], from: usize) -> (r: Option<usize>)
    ensures
        found_from(hay@, pat@, from as int, r),
{
    if from > hay.len() {
        return None;
    }
    let mut i: usize = from;
    while i < hay.len()
        invariant
            from <= i <= hay@.len(),
            forall|j: int| from <= j < i ==> !matches_at(hay@, pat@, j),
        decreases hay.len() - i,
    {
        if match_at(hay, pat, i) {
            return Some(i);
        }
        i += 1;
    }
    if match_at(hay, pat, i) {
        return Some(i);
    }
    None
}

/// The first position at or after `from` holding byte `c`, if any.
pub open spec fn first_byte_from(b: Seq<u8>, c: u8, from: int, r: Option<usize>) -> bool {
    match r {
        Some(i) => from <= i < b.len() && b[i as int] == c && forall|j: int|
            from <= j < i ==> b[j] != c,
        None => forall|j: int| from <= j < b.len() ==> b[j] != c,
    }
}

pub fn find_byte(b: &[u8], c: u8, from: usize) -> (r: Option<usize>)
    ensures
        first_byte_from(b@, c, from as int, r),
{
    let mut i: usize = from;
    while i < b.len()
        invariant
            from <= i,
            forall|j: int| from <= j < i ==> b@[j] != c,
        decreases b.len() - i,
    {
        if b[i] == c {
            return Some(i);
        }
        i += 1;
    }
    None
}

/// The last position before `end` holding byte `c`, if any.
pub open spec fn last_byte_before(b: Seq<u8>, c: u8, end: int, r: Option<usize>) -> bool {
    match r {
        Some(i) => i < end && i < b.len() && b[i as int] == c && forall|j: int|
            i < j < end ==> b[j] != c,
        None => forall|j: int| 0 <= j < end ==> b[j] != c,
    }
}

pub fn rfind_byte(b: &[u8], c: u8, end: usize) -> (r: Option<usize>)
    requires
        end <= b@.len(),
    ensures
        last_byte_before(b@, c, end as int, r),
{
    let mut i: usize = end;
    while i > 0
        invariant
            i <= end,
            end <= b@.len(),
            forall|j: int| i <= j < end ==> b@[j] != c,
        decreases i,
    {
        if b[i - 1] == c {
            return Some(i - 1);
        }
        i -= 1;
    }
    None
}


/// A three-byte encoding of a Unicode White_Space character.
pub open spec fn is_ws3(x: u8, y: u8, z: u8) -> bool {
    ||| (x == 0xe1 && y == 0x9a && z == 0x80)
    ||| (x == 0xe2 && y == 0x80 && ((0x80 <= z <= 0x8a) || z == 0xa8 || z == 0xa9 || z == 0xaf))
    ||| (x == 0xe2 && y == 0x81 && z == 0x9f)
    ||| (x == 0xe3 && y == 0x80 && z == 0x80)
}

/// The length of the White_Space character (as `char::is_whitespace` sees
/// it) encoded in `b` at `i` and ending before `hi`, or 0 if there is none.
pub open spec fn ws_at(b: Seq<u8>, i: int, hi: int) -> int {
    if 0 <= i < hi && hi <= b.len() && (b[i] == 0x20 || (0x09 <= b[i] <= 0x0d)) {
        1
    } else if 0 <= i && i + 2 <= hi && hi <= b.len() && b[i] == 0xc2 && (b[i + 1] == 0x85
        || b[i + 1] == 0xa0) {
        2
    } else if 0 <= i && i + 3 <= hi && hi <= b.len() && is_ws3(b[i], b[i + 1], b[i + 2]) {
        3
    } else {
        0
    }
}

/// The length of the White_Space character encoded in `b` that ends at `j`
/// and starts at or after `lo`, or 0 if there is none.
pub open spec fn ws_before(b: Seq<u8>, lo: int, j: int) -> int {
    if lo <= j - 1 && 0 <= j - 1 && j <= b.len() && (b[j - 1] == 0x20 || (0x09 <= b[j - 1]
        <= 0x0d)) {
        1
    } else if lo <= j - 2 && 0 <= j - 2 && j <= b.len() && b[j - 2] == 0xc2 && (b[j - 1]
        == 0x85 || b[j - 1] == 0xa0) {
        2
    } else if lo <= j - 3 && 0 <= j - 3 && j <= b.len() && is_ws3(b[j - 3], b[j - 2], b[j - 1]) {
        3
    } else {
        0
    }
}

/// Where `b[lo..hi]` starts once leading whitespace is trimmed.
pub open spec fn trim_lo(b: Seq<u8>, lo: int, hi: int) -> int
    decreases hi - lo,
{
    if lo < hi && ws_at(b, lo, hi) > 0 {
        trim_lo(b, lo + ws_at(b, lo, hi), hi)
    } else {
        lo
    }
}

/// Where `b[lo..hi]` ends once trailing whitespace is trimmed.
pub open spec fn trim_hi(b: Seq<u8>, lo: int, hi: int) -> int
    decreases hi - lo,
{
    if lo < hi && ws_before(b, lo, hi) > 0 {
        trim_hi(b, lo, hi - ws_before(b, lo, hi))
    } else {
        hi
    }
}

/// `b[lo..hi]` with leading and trailing whitespace removed (`str::trim`).
pub open spec fn trimmed(b: Seq<u8>, lo: int, hi: int) -> Seq<u8> {
    b.subrange(trim_lo(b, lo, hi), trim_hi(b, trim_lo(b, lo, hi), hi))
}

pub proof fn lemma_trim_lo_bounds(b: Seq<u8>, lo: int, hi: int)
    requires
        0 <= lo <= hi <= b.len(),
    ensures
        lo <= trim_lo(b, lo, hi) <= hi,
    decreases hi - lo,
{
    if lo < hi && ws_at(b, lo, hi) > 0 {
        lemma_trim_lo_bounds(b, lo + ws_at(b, lo, hi), hi);
    }
}

pub proof fn lemma_trim_hi_bounds(b: Seq<u8>, lo: int, hi: int)
    requires
        0 <= lo <= hi <= b.len(),
    ensures
        lo <= trim_hi(b, lo, hi) <= hi,
    decreases hi - lo,
{
    if lo < hi && ws_before(b, lo, hi) > 0 {
        lemma_trim_hi_bounds(b, lo, hi - ws_before(b, lo, hi));
    }
}

/// Trimming starts and ends on character boundaries when the untrimmed
/// range does.
pub proof fn lemma_trim_boundaries(b: Seq<u8>, lo: int, hi: int)
    requires
        valid_utf8(b),
        slice_ok(b, lo, hi),
    ensures
        slice_ok(b, trim_lo(b, lo, hi), trim_hi(b, trim_lo(b, lo, hi), hi)),
    decreases hi - lo,
{
    lemma_trim_lo_ok(b, lo, hi);
    let l = trim_lo(b, lo, hi);
    lemma_trim_hi_ok(b, l, hi);
}

proof fn lemma_trim_lo_ok(b: Seq<u8>, lo: int, hi: int)
    requires
        valid_utf8(b),
        slice_ok(b, lo, hi),
    ensures
        slice_ok(b, trim_lo(b, lo, hi), hi),
    decreases hi - lo,
{
    if lo < hi && ws_at(b, lo, hi) > 0 {
        lemma_boundary_after_char(b, lo);
        lemma_trim_lo_ok(b, lo + ws_at(b, lo, hi), hi);
    }
}

proof fn lemma_trim_hi_ok(b: Seq<u8>, lo: int, hi: int)
    requires
        valid_utf8(b),
        slice_ok(b, lo, hi),
    ensures
        slice_ok(b, lo, trim_hi(b, lo, hi)),
    decreases hi - lo,
{
    if lo < hi && ws_before(b, lo, hi) > 0 {
        let j = hi - ws_before(b, lo, hi);
        lemma_boundary_at(b, j);
        lemma_trim_hi_ok(b, lo, j);
    }
}

/// The length of the White_Space character at `i` within `b[..hi]`.
pub fn ws_len_at(b: &[u8], i: usize, hi: usize) -> (r: usize)
    requires
        hi <= b@.len(),
    ensures
        r == ws_at(b@, i as int, hi as int),
{
    if i < hi && (b[i] == 0x20 || (0x09 <= b[i] && b[i] <= 0x0d)) {
        1
    } else if i < hi && hi - i >= 2 && b[i] == 0xc2 && (b[i + 1] == 0x85 || b[i + 1] == 0xa0) {
        2
    } else if i < hi && hi - i >= 3 && ((b[i] == 0xe1 && b[i + 1] == 0x9a && b[i + 2] == 0x80)
        || (b[i] == 0xe2 && b[i + 1] == 0x80 && ((0x80 <= b[i + 2] && b[i + 2] <= 0x8a) || b[i
        + 2] == 0xa8 || b[i + 2] == 0xa9 || b[i + 2] == 0xaf)) || (b[i] == 0xe2 && b[i + 1]
        == 0x81 && b[i + 2] == 0x9f) || (b[i] == 0xe3 && b[i + 1] == 0x80 && b[i + 2] == 0x80)) {
        3
    } else {
        0
    }
}

/// The length of the White_Space character ending at `j` within `b[lo..]`.
pub fn ws_len_before(b: &[u8], lo: usize, j: usize) -> (r: usize)
    requires
        j <= b@.len(),
    ensures
        r == ws_before(b@, lo as int, j as int),
{
    if j >= 1 && lo <= j - 1 && (b[j - 1] == 0x20 || (0x09 <= b[j - 1] && b[j - 1] <= 0x0d)) {
        1
    } else if j >= 2 && lo <= j - 2 && b[j - 2] == 0xc2 && (b[j - 1] == 0x85 || b[j - 1] == 0xa0) {
        2
    } else if j >= 3 && lo <= j - 3 && ((b[j - 3] == 0xe1 && b[j - 2] == 0x9a && b[j - 1] == 0x80)
        || (b[j - 3] == 0xe2 && b[j - 2] == 0x80 && ((0x80 <= b[j - 1] && b[j - 1] <= 0x8a) || b[j
        - 1] == 0xa8 || b[j - 1] == 0xa9 || b[j - 1] == 0xaf)) || (b[j - 3] == 0xe2 && b[j - 2]
        == 0x81 && b[j - 1] == 0x9f) || (b[j - 3] == 0xe3 && b[j - 2] == 0x80 && b[j - 1]
        == 0x80)) {
        3
    } else {
        0
    }
}

/// The bounds of `b[lo..hi]` once it is trimmed of surrounding whitespace.
pub fn trim_bounds(b: &[u8], lo: usize, hi: usize) -> (r: (usize, usize))
    requires
        lo <= hi <= b@.len(),
    ensures
        r.0 == trim_lo(b@, lo as int, hi as int),
        r.1 == trim_hi(b@, r.0 as int, hi as int),
        lo <= r.0 <= r.1 <= hi,
{
    let mut s: usize = lo;
    let mut w: usize = ws_len_at(b, s, hi);
    while s < hi && w > 0
        invariant
            lo <= s <= hi <= b@.len(),
            w == ws_at(b@, s as int, hi as int),
            trim_lo(b@, s as int, hi as int) == trim_lo(b@, lo as int, hi as int),
        decreases hi - s,
    {
        s = s + w;
        w = ws_len_at(b, s, hi);
    }
    let mut e: usize = hi;
    let mut v: usize = ws_len_before(b, s, e);
    while e > s && v > 0
        invariant
            lo <= s <= e <= hi <= b@.len(),
            v == ws_before(b@, s as int, e as int),
            trim_hi(b@, s as int, e as int) == trim_hi(b@, s as int, hi as int),
        decreases e - s,
    {
        e = e - v;
        v = ws_len_before(b, s, e);
    }
    (s, e)
}

/// Whether `b[lo..hi]` is all whitespace.
pub fn is_blank(b: &[u8], lo: usize, hi: usize) -> (r: bool)
    requires
        lo <= hi <= b@.len(),
    ensures
        r == (trimmed(b@, lo as int, hi as int).len() == 0),
{
    let (s, e) = trim_bounds(b, lo, hi);
    s == e
}


/// The offset of the first newline at or after `from`, or `b.len()`.
pub open spec fn nl_from(b: Seq<u8>, from: int) -> int
    decreases b.len() - from,
{
    if from >= b.len() {
        b.len() as int
    } else if b[from] == 0x0a {
        from
    } else {
        nl_from(b, from + 1)
    }
}

/// Where the content of the line that starts at `from` ends: before its
/// `\n`, or before its `\r\n` (as `str::lines` strips them).
pub open spec fn line_end(b: Seq<u8>, from: int) -> int {
    let n = nl_from(b, from);
    if n < b.len() && n > from && b[n - 1] == 0x0d {
        n - 1
    } else {
        n
    }
}

/// The (start, end) of the content of each line from `from` on, as
/// `str::lines` yields them.
pub open spec fn lines_from(b: Seq<u8>, from: int) -> Seq<(int, int)>
    decreases b.len() + 1 - from,
{
    if from >= b.len() || from < 0 {
        seq![]
    } else {
        proof {
            lemma_nl_from(b, from);
        }
        seq![(from, line_end(b, from))] + lines_from(b, nl_from(b, from) + 1)
    }
}

/// The lines of a text, as `str::lines` yields them.
pub open spec fn lines(b: Seq<u8>) -> Seq<(int, int)> {
    lines_from(b, 0)
}

pub proof fn lemma_nl_from(b: Seq<u8>, from: int)
    requires
        0 <= from,
    ensures
        from <= nl_from(b, from) <= b.len() || (from > b.len() && nl_from(b, from) == b.len()),
        nl_from(b, from) < b.len() ==> b[nl_from(b, from)] == 0x0a,
        forall|j: int| from <= j < nl_from(b, from) ==> b[j] != 0x0a,
    decreases b.len() - from,
{
    if from < b.len() && b[from] != 0x0a {
        lemma_nl_from(b, from + 1);
    }
}

/// The newline that ends the line starting at `from`, and where the line's
/// content ends.
pub fn next_line(b: &[u8], from: usize) -> (r: (usize, usize))
    requires
        from < b@.len(),
    ensures
        r.1 == nl_from(b@, from as int),
        r.0 == line_end(b@, from as int),
        from <= r.0 <= r.1 <= b@.len(),
{
    proof {
        lemma_nl_from(b@, from as int);
    }
    let n = match find_byte(b, 0x0a, from) {
        Some(n) => n,
        None => b.len(),
    };
    proof {
        assert(n == nl_from(b@, from as int)) by {
            if n < nl_from(b@, from as int) {
                assert(b@[n as int] == 0x0a);
            } else if n > nl_from(b@, from as int) {
                assert(b@[nl_from(b@, from as int)] == 0x0a);
            }
        }
    }
    if n < b.len() && n > from && b[n - 1] == 0x0d {
        (n - 1, n)
    } else {
        (n, n)
    }
}

/// The number of newlines in `b[0..end]`.
pub open spec fn newlines_before(b: Seq<u8>, end: int) -> nat
    decreases end,
{
    if end <= 0 || b.len() == 0 {
        0
    } else if end > b.len() {
        newlines_before(b, b.len() as int)
    } else {
        newlines_before(b, end - 1) + if b[end - 1] == 0x0a {
            1nat
        } else {
            0nat
        }
    }
}


/// Two string slices hold the same characters.
pub fn str_eq(a: &str, b: &str) -> (r: bool)
    ensures
        r == (a@ == b@),
{
    let x = a.as_bytes();
    let y = b.as_bytes();
    proof {
        encode_utf8_decode_utf8(a@);
        encode_utf8_decode_utf8(b@);
    }
    if x.len() != y.len() {
        return false;
    }
    let mut i: usize = 0;
    while i < x.len()
        invariant
            x@ == bytes(a),
            y@ == bytes(b),
            x@.len() == y@.len(),
            i <= x@.len(),
            forall|k: int| 0 <= k < i ==> x@[k] == y@[k],
        decreases x.len() - i,
    {
        if x[i] != y[i] {
            assert(x@ == bytes(a));
            assert(y@ == bytes(b));
            assert(x@ != y@ ==> a@ != b@);
            assert(x@[i as int] != y@[i as int]);
            return false;
        }
        i += 1;
    }
    assert(x@ =~= y@);
    true
}


/// `name` occurs in `b` at `p` as a whole identifier: no identifier byte
/// right before or right after it.
pub open spec fn ident_occurrence(b: Seq<u8>, name: Seq<u8>, p: int) -> bool {
    &&& matches_at(b, name, p)
    &&& (p == 0 || !is_ident_byte(b[p - 1]))
    &&& (p + name.len() >= b.len() || !is_ident_byte(b[p + name.len()]))
}

/// The number of whole-identifier occurrences of `name` that start before `p`.
pub open spec fn occurrences_before(b: Seq<u8>, name: Seq<u8>, p: int) -> nat
    decreases p,
{
    if p <= 0 {
        0
    } else {
        occurrences_before(b, name, p - 1) + if ident_occurrence(b, name, p - 1) {
            1nat
        } else {
            0nat
        }
    }
}

/// The number of whole-identifier occurrences of `name` in `b`.
pub open spec fn occurrences(b: Seq<u8>, name: Seq<u8>) -> nat {
    occurrences_before(b, name, b.len() as int + 1)
}

/// Searching `b` for `pat` match by match (restarting one byte after each
/// match) stays on character boundaries: the pattern is not empty, and it
/// starts with an ASCII byte or does not occur at all.
pub open spec fn scan_safe(b: Seq<u8>, pat: Seq<u8>) -> bool {
    &&& pat.len() > 0
    &&& (pat[0] < 0x80 || forall|p: int| !matches_at(b, pat, p))
}

/// Counts the whole-identifier occurrences of `name` in `b`.
pub fn count_ident(b: &[u8], name: &[u8]) -> (r: usize)
    requires
        name@.len() > 0,
    ensures
        r == occurrences(b@, name@),
{
    let mut count: usize = 0;
    let mut p: usize = 0;
    while p < b.len()
        invariant
            name@.len() > 0,
            p <= b@.len(),
            count == occurrences_before(b@, name@, p as int),
            count <= p,
        decreases b.len() - p,
    {
        if match_at(b, name, p) {
            let before_ok = p == 0 || !ident_byte(b[p - 1]);
            let after = p + name.len();
            let after_ok = after >= b.len() || !ident_byte(b[after]);
            if before_ok && after_ok {
                count += 1;
            }
        }
        p += 1;
    }
    assert(!matches_at(b@, name@, b@.len() as int));
    count
}


/// The first offset at or after `from` that holds byte `c`, or `b.len()`.
pub open spec fn byte_from(b: Seq<u8>, c: u8, from: int) -> int
    decreases b.len() - from,
{
    if from >= b.len() {
        b.len() as int
    } else if from >= 0 && b[from] == c {
        from
    } else {
        byte_from(b, c, from + 1)
    }
}

pub proof fn lemma_byte_from(b: Seq<u8>, c: u8, from: int)
    requires
        0 <= from,
    ensures
        from <= byte_from(b, c, from) <= b.len() || (from > b.len() && byte_from(b, c, from)
            == b.len()),
        byte_from(b, c, from) < b.len() ==> b[byte_from(b, c, from)] == c,
        forall|j: int| from <= j < byte_from(b, c, from) ==> b[j] != c,
    decreases b.len() - from,
{
    if from < b.len() && b[from] != c {
        lemma_byte_from(b, c, from + 1);
    }
}

/// Finds byte `c` at or after `from`, as `byte_from` describes it.
pub fn find_byte_or_end(b: &[u8], c: u8, from: usize) -> (r: usize)
    ensures
        r == byte_from(b@, c, from as int),
{
    proof {
        lemma_byte_from(b@, c, from as int);
    }
    match find_byte(b, c, from) {
        Some(i) => {
            assert(i == byte_from(b@, c, from as int)) by {
                if i > byte_from(b@, c, from as int) {
                    assert(b@[byte_from(b@, c, from as int)] == c);
                }
            }
            i
        },
        None => b.len(),
    }
}

/// `s` starts with `p`.
pub open spec fn starts_with(s: Seq<u8>, p: Seq<u8>) -> bool {
    p.len() <= s.len() && s.subrange(0, p.len() as int) == p
}

/// Whether `b[lo..hi]` starts with `p`.
pub fn range_starts_with(b: &[u8], lo: usize, hi: usize, p: &[u8]) -> (r: bool)
    requires
        lo <= hi <= b@.len(),
    ensures
        r == starts_with(b@.subrange(lo as int, hi as int), p@),
{
    if p.len() > hi - lo {
        return false;
    }
    let m = match_at(b, p, lo);
    proof {
        assert(b@.subrange(lo as int, hi as int).subrange(0, p@.len() as int) =~= b@.subrange(
            lo as int,
            lo + p@.len(),
        ));
    }
    m
}

/// The offset that summing `len + 1` over the first `k` lines gives (the
/// line offsets that counting one byte per line ending yields).
pub open spec fn line_offset(ls: Seq<(int, int)>, k: int) -> int
    decreases k,
{
    if k <= 0 {
        0
    } else {
        line_offset(ls, k - 1) + (ls[k - 1].1 - ls[k - 1].0) + 1
    }
}

pub proof fn lemma_lines_from_shape(b: Seq<u8>, from: int)
    requires
        0 <= from,
    ensures
        forall|k: int|
            0 <= k < lines_from(b, from).len() ==> from <= (#[trigger] lines_from(b, from)[k]).0
                <= lines_from(b, from)[k].1 <= b.len(),
    decreases b.len() + 1 - from,
{
    if from < b.len() {
        lemma_nl_from(b, from);
        let rest = lines_from(b, nl_from(b, from) + 1);
        lemma_lines_from_shape(b, nl_from(b, from) + 1);
        let all = lines_from(b, from);
        assert(all == seq![(from, line_end(b, from))] + rest);
        assert forall|k: int| 0 <= k < all.len() implies from <= (#[trigger] all[k]).0 <= all[k].1
            <= b.len() by {
            if k > 0 {
                assert(all[k] == rest[k - 1]);
            }
        }
    }
}


/// The preprocessor inclusion directive, spelled out byte by byte.
pub const INCLUDE_WORD: [u8; 8] = [0x23, 0x69, 0x6e, 0x63, 0x6c, 0x75, 0x64, 0x65];

/// The inclusion directive followed by a space.
pub const INCLUDE_SP: [u8; 9] = [0x23, 0x69, 0x6e, 0x63, 0x6c, 0x75, 0x64, 0x65, 0x20];

/// The inclusion directive followed by a tab.
pub const INCLUDE_TAB: [u8; 9] = [0x23, 0x69, 0x6e, 0x63, 0x6c, 0x75, 0x64, 0x65, 0x09];


/// Where a declaration that ends at `from` ends once a `;` on the same line
/// is taken in: just after the first `;` found before any newline, else
/// `from` itself.
pub open spec fn semi_end(b: Seq<u8>, from: int, i: int) -> int
    decreases b.len() - i,
{
    if i >= b.len() || i < 0 {
        from
    } else if b[i] == 0x3b {
        i + 1
    } else if b[i] == 0x0a {
        from
    } else {
        semi_end(b, from, i + 1)
    }
}

/// Scans `b` from `from` for a `;` before the end of the line.
pub fn semicolon_end(b: &[u8], from: usize) -> (r: usize)
    requires
        from <= b@.len(),
    ensures
        r == semi_end(b@, from as int, from as int),
        from <= r <= b@.len(),
        r > from ==> b@[r - 1] == 0x3b,
{
    let mut i: usize = from;
    while i < b.len()
        invariant
            from <= i <= b@.len(),
            semi_end(b@, from as int, i as int) == semi_end(b@, from as int, from as int),
        decreases b.len() - i,
    {
        if b[i] == 0x3b {
            return i + 1;
        }
        if b[i] == 0x0a {
            return from;
        }
        i += 1;
    }
    from
}

/// `pat` occurs in `b` with no identifier byte right after it.
pub open spec fn accessed(b: Seq<u8>, pat: Seq<u8>) -> bool {
    exists|p: int|
        #![trigger matches_at(b, pat, p)]
        matches_at(b, pat, p) && (p + pat.len() >= b.len() || !is_ident_byte(b[p + pat.len()]))
}

/// Whether `pat` occurs in `b` followed by a non-identifier byte (or the end).
pub fn has_access(b: &[u8], pat: &[u8]) -> (r: bool)
    ensures
        r == accessed(b@, pat@),
{
    let mut p: usize = 0;
    while p < b.len()
        invariant
            p <= b@.len(),
            forall|q: int|
                0 <= q < p ==> !(matches_at(b@, pat@, q) && (q + pat@.len() >= b@.len()
                    || !is_ident_byte(b@[q + pat@.len()]))),
        decreases b.len() - p,
    {
        if match_at(b, pat, p) {
            let after = p + pat.len();
            if after >= b.len() || !ident_byte(b[after]) {
                return true;
            }
        }
        p += 1;
    }
    if match_at(b, pat, p) {
        return true;
    }
    assert forall|q: int| #![trigger matches_at(b@, pat@, q)]
        matches_at(b@, pat@, q) implies !(q + pat@.len() >= b@.len() || !is_ident_byte(
        b@[q + pat@.len()])) by {
        assert(q <= b@.len());
        if q == b@.len() {
            assert(matches_at(b@, pat@, p as int));
        }
    }
    false
}

/// The first offset at or after `from` where `pat` occurs, or `b.len() + 1`
/// when there is none.
pub open spec fn match_from(b: Seq<u8>, pat: Seq<u8>, from: int) -> int
    decreases b.len() + 1 - from,
{
    if from < 0 || from > b.len() {
        b.len() as int + 1
    } else if matches_at(b, pat, from) {
        from
    } else {
        match_from(b, pat, from + 1)
    }
}

pub proof fn lemma_match_from(b: Seq<u8>, pat: Seq<u8>, from: int)
    requires
        0 <= from <= b.len() + 1,
    ensures
        from <= match_from(b, pat, from) <= b.len() + 1,
        match_from(b, pat, from) <= b.len() ==> matches_at(b, pat, match_from(b, pat, from)),
        forall|j: int| from <= j < match_from(b, pat, from) ==> !matches_at(b, pat, j),
    decreases b.len() + 1 - from,
{
    if from <= b.len() && !matches_at(b, pat, from) {
        lemma_match_from(b, pat, from + 1);
    }
}

/// The first occurrence of `pat` at or after `from`, as `match_from` gives
/// it, when there is one.
pub fn find_match(b: &[u8], pat: &[u8], from: usize) -> (r: Option<usize>)
    requires
        from <= b@.len(),
    ensures
        match r {
            Some(m) => m == match_from(b@, pat@, from as int) && m <= b@.len() && matches_at(b@, pat@, m as int),
            None => match_from(b@, pat@, from as int) > b@.len(),
        },
{
    proof {
        lemma_match_from(b@, pat@, from as int);
    }
    match find_bytes(b, pat, from) {
        Some(m) => {
            assert(m == match_from(b@, pat@, from as int)) by {
                if m > match_from(b@, pat@, from as int) {
                    assert(matches_at(b@, pat@, match_from(b@, pat@, from as int)));
                }
            }
            Some(m)
        },
        None => {
            assert(match_from(b@, pat@, from as int) > b@.len()) by {
                if match_from(b@, pat@, from as int) <= b@.len() {
                    assert(matches_at(b@, pat@, match_from(b@, pat@, from as int)));
                }
            }
            None
        },
    }
}

/// The number of non-overlapping occurrences of a non-empty `pat` in
/// `b[from..]`, found left to right (as `str::matches` counts them).
pub open spec fn disjoint_matches(b: Seq<u8>, pat: Seq<u8>, from: int) -> nat
    decreases b.len() + 1 - from,
{
    if pat.len() == 0 || from < 0 || from > b.len() {
        0
    } else {
        let m = match_from(b, pat, from);
        if m > b.len() {
            0
        } else {
            proof {
                lemma_match_from(b, pat, from);
            }
            1 + disjoint_matches(b, pat, m + pat.len())
        }
    }
}

/// Counts the non-overlapping occurrences of a non-empty `pat` in `b`.
pub fn count_disjoint(b: &[u8], pat: &[u8]) -> (r: usize)
    requires
        pat@.len() > 0,
    ensures
        r == disjoint_matches(b@, pat@, 0),
{
    let mut count: usize = 0;
    let mut from: usize = 0;
    while from <= b.len()
        invariant
            pat@.len() > 0,
            from <= b@.len() + 1,
            count + disjoint_matches(b@, pat@, from as int) == disjoint_matches(b@, pat@, 0),
            count <= from,
        decreases b.len() + 1 - from,
    {
        proof {
            lemma_match_from(b@, pat@, from as int);
        }
        match find_bytes(b, pat, from) {
            Some(m) => {
                assert(m == match_from(b@, pat@, from as int)) by {
                    if m > match_from(b@, pat@, from as int) {
                        assert(matches_at(b@, pat@, match_from(b@, pat@, from as int)));
                    }
                }
                count += 1;
                from = m + pat.len();
            },
            None => {
                assert(match_from(b@, pat@, from as int) > b@.len()) by {
                    if match_from(b@, pat@, from as int) <= b@.len() {
                        assert(matches_at(b@, pat@, match_from(b@, pat@, from as int)));
                    }
                }
                return count;
            },
        }
    }
    count
}


/// Where `b[lo..hi]` ends once trailing `;` bytes are stripped.
pub open spec fn strip_semis_hi(b: Seq<u8>, lo: int, hi: int) -> int
    decreases hi - lo,
{
    if lo < hi && hi <= b.len() && b[hi - 1] == 0x3b {
        strip_semis_hi(b, lo, hi - 1)
    } else {
        hi
    }
}

/// Strips trailing `;` bytes from `b[lo..hi]`.
pub fn strip_semis(b: &[u8], lo: usize, hi: usize) -> (r: usize)
    requires
        lo <= hi <= b@.len(),
    ensures
        r == strip_semis_hi(b@, lo as int, hi as int),
        lo <= r <= hi,
{
    let mut e: usize = hi;
    while e > lo && b[e - 1] == 0x3b
        invariant
            lo <= e <= hi <= b@.len(),
            strip_semis_hi(b@, lo as int, e as int) == strip_semis_hi(b@, lo as int, hi as int),
        decreases e - lo,
    {
        e -= 1;
    }
    e
}

/// The first offset in `lo..hi` holding `c`, or `hi`.
pub open spec fn byte_in(b: Seq<u8>, c: u8, lo: int, hi: int) -> int {
    if byte_from(b, c, lo) < hi {
        byte_from(b, c, lo)
    } else {
        hi
    }
}

/// Finds `c` in `b[lo..hi]`, as `byte_in` describes it.
pub fn find_byte_in(b: &[u8], c: u8, lo: usize, hi: usize) -> (r: usize)
    requires
        lo <= hi <= b@.len(),
    ensures
        r == byte_in(b@, c, lo as int, hi as int),
        lo <= r <= hi,
        r < hi ==> b@[r as int] == c,
{
    proof {
        lemma_byte_from(b@, c, lo as int);
    }
    let f = find_byte_or_end(b, c, lo);
    if f < hi {
        f
    } else {
        hi
    }
}

/// Whether `b[lo..hi]` holds exactly the bytes `t`.
pub fn range_eq(b: &[u8], lo: usize, hi: usize, t: &[u8]) -> (r: bool)
    requires
        lo <= hi <= b@.len(),
    ensures
        r == (b@.subrange(lo as int, hi as int) == t@),
{
    if hi - lo != t.len() {
        proof {
            assert(b@.subrange(lo as int, hi as int).len() != t@.len());
        }
        return false;
    }
    let m = match_at(b, t, lo);
    proof {
        assert(lo + t@.len() == hi);
    }
    m
}

/// A byte that, right before `=`, makes a compound assignment or a comparison.
pub open spec fn is_operator_byte(c: u8) -> bool {
    c == 0x2b || c == 0x2d || c == 0x2a || c == 0x2f || c == 0x25 || c == 0x26 || c == 0x7c
        || c == 0x5e || c == 0x21 || c == 0x3c || c == 0x3e
}

pub fn is_operator(c: u8) -> (r: bool)
    ensures
        r == is_operator_byte(c),
{
    c == 0x2b || c == 0x2d || c == 0x2a || c == 0x2f || c == 0x25 || c == 0x26 || c == 0x7c
        || c == 0x5e || c == 0x21 || c == 0x3c || c == 0x3e
}

/// Pushes an ASCII literal.
pub fn push_ascii(out: &mut String, t: &str)
    requires
        is_ascii_chars(t@),
    ensures
        sbytes(final(out)) == sbytes(old(out)) + bytes(t),
        bytes(t).len() == t@.len(),
        forall|i: int| 0 <= i < t@.len() ==> bytes(t)[i] == t@[i] as u8,
{
    proof {
        is_ascii_chars_encode_utf8(t@);
    }
    push_str(out, t);
}

/// Trimming trailing whitespace ends on a character boundary when the
/// untrimmed range does.
pub proof fn lemma_trim_hi_boundary(b: Seq<u8>, lo: int, hi: int)
    requires
        valid_utf8(b),
        0 <= lo <= hi <= b.len(),
        is_char_boundary(b, hi),
    ensures
        is_char_boundary(b, trim_hi(b, lo, hi)),
        lo <= trim_hi(b, lo, hi) <= hi,
    decreases hi - lo,
{
    if lo < hi && ws_before(b, lo, hi) > 0 {
        let j = hi - ws_before(b, lo, hi);
        lemma_boundary_at(b, j);
        lemma_trim_hi_boundary(b, lo, j);
    }
}

/// Whether `a` and `b` hold the same bytes.
pub fn same_text(a: &str, b: &str) -> (r: bool)
    ensures
        r == (bytes(a) == bytes(b)),
{
    let x = a.as_bytes();
    let y = b.as_bytes();
    if x.len() != y.len() {
        proof {
            assert(x@.len() != y@.len());
        }
        return false;
    }
    let r = range_eq(x, 0, x.len(), y);
    proof {
        assert(x@.subrange(0, x@.len() as int) =~= x@);
    }
    r
}

/// Every byte of `b[lo..hi]` is an identifier byte.
pub open spec fn all_ident(b: Seq<u8>, lo: int, hi: int) -> bool {
    forall|k: int| lo <= k < hi ==> is_ident_byte(#[trigger] b[k])
}

pub fn all_ident_in(b: &[u8], lo: usize, hi: usize) -> (r: bool)
    requires
        lo <= hi <= b@.len(),
    ensures
        r == all_ident(b@, lo as int, hi as int),
{
    let mut k: usize = lo;
    while k < hi
        invariant
            lo <= k <= hi <= b@.len(),
            all_ident(b@, lo as int, k as int),
        decreases hi - k,
    {
        if !ident_byte(b[k]) {
            return false;
        }
        k += 1;
    }
    true
}

} // verus!
