//! The 8.3 names of directory entries: the 12-byte stored form and the
//! canonical text form (lower case, base name without its space padding).
//!
//! Case is folded on the names read as text, with std's Unicode case
//! mappings; the laws about storing and canonicalizing are stated for ASCII
//! names, where those mappings are the ASCII ones.
use vstd::prelude::*;
use vstd::utf8::{decode_utf8, decode_utf8_encode_utf8, encode_utf8, is_ascii_chars, pop_first_scalar, valid_utf8};

verus! {

pub const DOT: u8 = 0x2E;

pub const SPACE: u8 = 0x20;

pub const SLASH: u8 = 0x2F;

pub const BACKSLASH: u8 = 0x5C;

pub open spec fn lower(b: u8) -> u8 {
    if 0x41 <= b <= 0x5A { (b + 0x20) as u8 } else { b }
}

pub open spec fn upper(b: u8) -> u8 {
    if 0x61 <= b <= 0x7A { (b - 0x20) as u8 } else { b }
}

pub open spec fn lower_all(s: Seq<u8>) -> Seq<u8> {
    s.map_values(|b: u8| lower(b))
}

pub open spec fn upper_all(s: Seq<u8>) -> Seq<u8> {
    s.map_values(|b: u8| upper(b))
}

/// `i` is the first position of `x` in `s`.
pub open spec fn is_first(s: Seq<u8>, x: u8, i: int) -> bool {
    0 <= i < s.len() && s[i] == x && forall|j: int| 0 <= j < i ==> s[j] != x
}

/// Position of the first `x` in `s`, or `s.len()` when there is none.
pub open spec fn first_of(s: Seq<u8>, x: u8) -> int {
    if exists|i: int| is_first(s, x, i) {
        choose|i: int| is_first(s, x, i)
    } else {
        s.len() as int
    }
}

pub open spec fn is_sep(b: u8) -> bool {
    b == SLASH || b == BACKSLASH
}

/// `i` is the last position of a path separator in `s`.
pub open spec fn is_last_sep(s: Seq<u8>, i: int) -> bool {
    0 <= i < s.len() && is_sep(s[i]) && forall|j: int| i < j < s.len() ==> !is_sep(s[j])
}

/// What follows the last path separator of `s` (all of `s` if it has none).
pub open spec fn file_part(s: Seq<u8>) -> Seq<u8> {
    if exists|i: int| is_last_sep(s, i) {
        s.skip((choose|i: int| is_last_sep(s, i)) + 1)
    } else {
        s
    }
}

/// Start of the path component that ends at `end`: just after the last
/// separator before `end`.
pub open spec fn seg_start(p: Seq<u8>, end: int) -> int
    decreases end,
{
    if end <= 0 {
        0
    } else if is_sep(p[end - 1]) {
        end
    } else {
        seg_start(p, end - 1)
    }
}

/// The last component of the path `p.take(end)`, as `Path::file_name` takes
/// it: trailing separators and `.` components are passed over; a last
/// component `..`, or none at all, gives `None`.
pub open spec fn file_name_at(p: Seq<u8>, end: int) -> Option<Seq<u8>>
    decreases end,
{
    if end <= 0 {
        None
    } else if is_sep(p[end - 1]) {
        file_name_at(p, end - 1)
    } else if p[end - 1] == DOT && (end == 1 || is_sep(p[end - 2])) {
        file_name_at(p, end - 1)
    } else if p[end - 1] == DOT && end >= 2 && p[end - 2] == DOT && (end == 2 || is_sep(p[end - 3])) {
        None
    } else {
        Some(p.subrange(seg_start(p, end), end))
    }
}

/// The file name of the path `p`.
pub open spec fn file_name_of(p: Seq<u8>) -> Option<Seq<u8>> {
    file_name_at(p, p.len() as int)
}

/// `s` without its trailing spaces.
pub open spec fn trim_end_spaces(s: Seq<u8>) -> Seq<u8>
    decreases s.len(),
{
    if s.len() > 0 && s.last() == SPACE {
        trim_end_spaces(s.drop_last())
    } else {
        s
    }
}

/// `s` padded with spaces up to `n` bytes.
pub open spec fn pad(s: Seq<u8>, n: nat) -> Seq<u8> {
    Seq::new(n, |i: int| if i < s.len() { s[i] } else { SPACE })
}

/// A lower-cased name cut at its first dot, the base name's trailing spaces
/// removed; a name without a dot is kept whole.
pub open spec fn cut_name(l: Seq<u8>) -> Seq<u8> {
    let d = first_of(l, DOT);
    if d == l.len() {
        l
    } else {
        trim_end_spaces(l.take(d)) + seq![DOT] + l.skip(d + 1)
    }
}

/// An upper-cased file name split at its first dot, base name padded to 8
/// bytes and extension to 3; `None` when either part is too long.
pub open spec fn stored_from_upper(u: Seq<u8>) -> Option<Seq<u8>> {
    let d = first_of(u, DOT);
    let base = u.take(d);
    let ext = if d < u.len() { u.skip(d + 1) } else { Seq::empty() };
    if base.len() > 8 || ext.len() > 3 {
        None
    } else {
        Some(pad(base, 8) + seq![DOT] + pad(ext, 3))
    }
}

/// Canonical form of a stored name: its bytes read as text, lower-cased,
/// then cut at the first dot with the base name's trailing spaces removed.
pub open spec fn canonical(s: Seq<u8>) -> Seq<u8> {
    cut_name(encode_utf8(lower_of(lossy_text(s))))
}

/// Stored form of a name: the part after the last path separator, read as
/// text and upper-cased, then split and padded to 8.3.
pub open spec fn stored(name: Seq<u8>) -> Option<Seq<u8>> {
    stored_from_upper(encode_utf8(upper_of(lossy_text(file_part(name)))))
}

/// What `canonical` comes to on ASCII bytes.
pub open spec fn canonical_ascii(s: Seq<u8>) -> Seq<u8> {
    cut_name(lower_all(s))
}

/// What `stored` comes to on ASCII bytes.
pub open spec fn stored_ascii(name: Seq<u8>) -> Option<Seq<u8>> {
    stored_from_upper(upper_all(file_part(name)))
}

/// The text that `str::to_lowercase` makes of some text.
pub uninterp spec fn lower_of(s: Seq<char>) -> Seq<char>;

/// The text that `str::to_uppercase` makes of some text.
pub uninterp spec fn upper_of(s: Seq<char>) -> Seq<char>;

/// Relies on `str::to_lowercase`: the lower-case text, which for ASCII text
/// is its ASCII lower case.
#[verifier::external_body]
pub(crate) fn to_lower(s: &str) -> (r: String)
    ensures
        r@ == lower_of(s@),
        is_ascii_chars(s@) ==> encode_utf8(r@) == lower_all(encode_utf8(s@)),
{
    s.to_lowercase()
}

/// Relies on `str::to_uppercase`: the upper-case text, which for ASCII text
/// is its ASCII upper case.
#[verifier::external_body]
fn to_upper(s: &str) -> (r: String)
    ensures
        r@ == upper_of(s@),
        is_ascii_chars(s@) ==> encode_utf8(r@) == upper_all(encode_utf8(s@)),
{
    s.to_uppercase()
}

/// The text that `String::from_utf8_lossy` makes of some bytes.
pub uninterp spec fn lossy_text(b: Seq<u8>) -> Seq<char>;

/// Relies on `String::from_utf8_lossy`: valid UTF-8 is decoded as it is,
/// invalid sequences become replacement characters.
#[verifier::external_body]
pub(crate) fn from_utf8_lossy(b: &[u8]) -> (r: String)
    ensures
        r@ == lossy_text(b@),
        valid_utf8(b@) ==> r@ == decode_utf8(b@),
{
    String::from_utf8_lossy(b).into_owned()
}

/// All bytes are ASCII.
pub open spec fn all_ascii(b: Seq<u8>) -> bool {
    forall|i: int| 0 <= i < b.len() ==> b[i] < 0x80
}

/// The text of ASCII bytes: one character per byte.
pub open spec fn ascii_text(b: Seq<u8>) -> Seq<char> {
    b.map_values(|x: u8| (x as u32) as char)
}

/// ASCII bytes are valid UTF-8 and decode one character per byte.
pub proof fn lemma_ascii_utf8(b: Seq<u8>)
    requires
        all_ascii(b),
    ensures
        valid_utf8(b),
        decode_utf8(b) == ascii_text(b),
    decreases b.len(),
{
    if b.len() > 0 {
        let rest = b.subrange(1, b.len() as int);
        let c = b[0];
        assert(c & 0x7F == c) by (bit_vector)
            requires c < 0x80u8;
        assert(pop_first_scalar(b) == rest);
        lemma_ascii_utf8(rest);
        assert(ascii_text(b) == seq![(b[0] as u32) as char] + ascii_text(rest));
    } else {
        assert(ascii_text(b) == Seq::<char>::empty());
    }
}

pub(crate) fn lower_byte(b: u8) -> (r: u8)
    ensures
        r == lower(b),
{
    if 0x41 <= b && b <= 0x5A { b + 0x20 } else { b }
}

pub(crate) fn upper_byte(b: u8) -> (r: u8)
    ensures
        r == upper(b),
{
    if 0x61 <= b && b <= 0x7A { b - 0x20 } else { b }
}

pub proof fn lemma_first_of(s: Seq<u8>, x: u8, i: int)
    requires
        is_first(s, x, i),
    ensures
        first_of(s, x) == i,
{
    let k = choose|k: int| is_first(s, x, k);
    assert(is_first(s, x, k));
    if k < i {
        assert(s[k] != x);
    } else if i < k {
        assert(s[i] != x);
    }
}

pub proof fn lemma_first_of_none(s: Seq<u8>, x: u8)
    requires
        forall|j: int| 0 <= j < s.len() ==> s[j] != x,
    ensures
        first_of(s, x) == s.len(),
{
}

/// Position of the first `x` in `s`, or `s.len()`.
pub fn find_first(s: &[u8], x: u8) -> (r: usize)
    ensures
        r == first_of(s@, x),
{
    let mut i: usize = 0;
    while i < s.len()
        invariant
            i <= s@.len(),
            forall|j: int| 0 <= j < i ==> s@[j] != x,
        decreases s@.len() - i,
    {
        if s[i] == x {
            proof {
                lemma_first_of(s@, x, i as int);
            }
            return i;
        }
        i += 1;
    }
    proof {
        lemma_first_of_none(s@, x);
    }
    i
}

pub proof fn lemma_last_sep(s: Seq<u8>, i: int)
    requires
        is_last_sep(s, i),
    ensures
        file_part(s) == s.skip(i + 1),
{
    let k = choose|k: int| is_last_sep(s, k);
    assert(is_last_sep(s, k));
    if k < i {
        assert(!is_sep(s[i]));
    } else if i < k {
        assert(!is_sep(s[k]));
    }
}

pub proof fn lemma_first_exists(s: Seq<u8>, x: u8, i: int)
    requires
        0 <= i < s.len(),
        s[i] == x,
    ensures
        is_first(s, x, first_of(s, x)),
        first_of(s, x) <= i,
    decreases i,
{
    if forall|j: int| 0 <= j < i ==> s[j] != x {
        lemma_first_of(s, x, i);
    } else {
        let j = choose|j: int| 0 <= j < i && s[j] == x;
        lemma_first_exists(s, x, j);
    }
}

proof fn lemma_trim_prefix(x: Seq<u8>)
    ensures
        trim_end_spaces(x).len() <= x.len(),
        trim_end_spaces(x) == x.take(trim_end_spaces(x).len() as int),
        trim_end_spaces(x).len() == 0 || trim_end_spaces(x).last() != SPACE,
        forall|j: int| trim_end_spaces(x).len() <= j < x.len() ==> x[j] == SPACE,
    decreases x.len(),
{
    if x.len() > 0 && x.last() == SPACE {
        lemma_trim_prefix(x.drop_last());
        let t = trim_end_spaces(x.drop_last());
        assert(x.drop_last().take(t.len() as int) == x.take(t.len() as int));
        assert forall|j: int| t.len() <= j < x.len() implies x[j] == SPACE by {
            if j < x.len() - 1 {
                assert(x.drop_last()[j] == x[j]);
            }
        }
    } else {
        assert(x.take(x.len() as int) == x);
    }
}

/// Trailing spaces beyond position `k` do not change the trimmed form.
proof fn lemma_trim_spaces_after(y: Seq<u8>, k: int)
    requires
        0 <= k <= y.len(),
        forall|j: int| k <= j < y.len() ==> y[j] == SPACE,
    ensures
        trim_end_spaces(y) == trim_end_spaces(y.take(k)),
    decreases y.len() - k,
{
    if k == y.len() {
        assert(y.take(k) == y);
    } else {
        lemma_trim_spaces_after(y.drop_last(), k);
        assert(y.drop_last().take(k) == y.take(k));
    }
}

proof fn lemma_trim_idempotent(x: Seq<u8>)
    ensures
        trim_end_spaces(trim_end_spaces(x)) == trim_end_spaces(x),
{
    lemma_trim_prefix(x);
}

/// A stored name in 8.3 layout (dot at position 8, no path separators) whose
/// canonical form can be stored again canonicalizes to that same form:
/// canonicalizing twice gives what canonicalizing once gives.
pub proof fn lemma_canonical_idempotent(s: Seq<u8>)
    requires
        s.len() == 12,
        s[8] == DOT,
        forall|j: int| 0 <= j < s.len() ==> !is_sep(s[j]),
    ensures
        stored_ascii(canonical_ascii(s)) matches Some(t) ==> canonical_ascii(t) == canonical_ascii(s),
{
    let l = lower_all(s);
    let d0 = first_of(l, DOT);
    lemma_first_exists(l, DOT, 8);
    let c = canonical_ascii(s);
    let x = l.take(d0);
    let tx = trim_end_spaces(x);
    lemma_trim_prefix(x);
    assert(c == tx + seq![DOT] + l.skip(d0 + 1));
    assert forall|j: int| 0 <= j < c.len() implies !is_sep(c[j]) by {
        if j < tx.len() {
            assert(c[j] == x[j]);
        } else if j > tx.len() {
            assert(c[j] == l[d0 + 1 + j - tx.len() - 1]);
        }
    }
    assert(!exists|i: int| is_last_sep(c, i));
    let u = upper_all(c);
    assert(u == upper_all(tx) + seq![DOT] + upper_all(l.skip(d0 + 1)));
    lemma_first_of(u, DOT, tx.len() as int);
    let ext = u.skip(tx.len() as int + 1);
    assert(ext == upper_all(l.skip(d0 + 1)));
    if d0 == 8 {
        let t = pad(upper_all(tx), 8) + seq![DOT] + pad(ext, 3);
        assert(stored_ascii(c) == Some(t));
        assert(pad(ext, 3) == ext);
        let lt = lower_all(t);
        let px = pad(tx, 8);
        assert(lt == px + seq![DOT] + l.skip(9));
        lemma_first_of(lt, DOT, 8);
        assert(lt.take(8) == px);
        lemma_trim_spaces_after(px, tx.len() as int);
        assert(px.take(tx.len() as int) == tx);
        lemma_trim_idempotent(x);
        assert(lt.skip(9) == l.skip(9));
    }
}

/// Where the file name of the path `p` lies in it (start, end).
pub fn file_name_range(p: &[u8]) -> (r: Option<(usize, usize)>)
    ensures
        match file_name_of(p@) {
            Some(f) => r matches Some((a, b)) && a <= b <= p@.len() && p@.subrange(a as int, b as int) == f,
            None => r is None,
        },
{
    let mut end: usize = p.len();
    loop
        invariant
            end <= p@.len(),
            file_name_at(p@, end as int) == file_name_of(p@),
        decreases end,
    {
        if end == 0 {
            return None;
        }
        let c = p[end - 1];
        if c == SLASH || c == BACKSLASH {
            end -= 1;
        } else if c == DOT && (end == 1 || p[end - 2] == SLASH || p[end - 2] == BACKSLASH) {
            end -= 1;
        } else if c == DOT && end >= 2 && p[end - 2] == DOT && (end == 2 || p[end - 3] == SLASH || p[end - 3] == BACKSLASH) {
            return None;
        } else {
            let mut s: usize = end;
            while s > 0 && !(p[s - 1] == SLASH || p[s - 1] == BACKSLASH)
                invariant
                    s <= end <= p@.len(),
                    seg_start(p@, s as int) == seg_start(p@, end as int),
                decreases s,
            {
                s -= 1;
            }
            return Some((s, end));
        }
    }
}

/// The canonical form of ASCII bytes is ASCII.
pub proof fn lemma_canonical_ascii(s: Seq<u8>)
    requires
        all_ascii(s),
    ensures
        all_ascii(canonical_ascii(s)),
{
    let l = lower_all(s);
    let d = first_of(l, DOT);
    if d != l.len() {
        if exists|i: int| is_first(l, DOT, i) {
            let i = choose|i: int| is_first(l, DOT, i);
            lemma_first_of(l, DOT, i);
        }
        let x = l.take(d);
        lemma_trim_prefix(x);
        let c = canonical_ascii(s);
        let tx = trim_end_spaces(x);
        assert(c == tx + seq![DOT] + l.skip(d + 1));
        assert forall|j: int| 0 <= j < c.len() implies c[j] < 0x80 by {
            if j < tx.len() {
                assert(c[j] == x[j]);
            } else if j > tx.len() {
                assert(c[j] == l[d + 1 + j - tx.len() - 1]);
            }
        }
    }
}

/// A byte of an upper-case stored name: a capital letter, a digit, `_` or
/// a space.
pub open spec fn is_stored_byte(b: u8) -> bool {
    (0x41 <= b <= 0x5A) || (0x30 <= b <= 0x39) || b == 0x5F || b == SPACE
}

/// An upper-case, space-padded 8.3 stored name is what storing its
/// canonical name gives back: storing undoes canonicalizing, whether the
/// canonical name is taken as bytes or as the text `Entry::name` returns.
pub proof fn lemma_stored_round_trip(n: Seq<u8>)
    requires
        n.len() == 12,
        n[8] == DOT,
        forall|i: int| 0 <= i < 12 && i != 8 ==> is_stored_byte(#[trigger] n[i]),
    ensures
        all_ascii(n),
        all_ascii(canonical_ascii(n)),
        stored_ascii(canonical_ascii(n)) == Some(n),
        stored_ascii(encode_utf8(ascii_text(canonical_ascii(n)))) == Some(n),
        is_ascii_chars(ascii_text(canonical_ascii(n))),
{
    let l = lower_all(n);
    assert forall|j: int| 0 <= j < 8 implies l[j] != DOT by {
        assert(is_stored_byte(n[j]));
    }
    lemma_first_of(l, DOT, 8);
    let x = l.take(8);
    let tx = trim_end_spaces(x);
    lemma_trim_prefix(x);
    let c = canonical_ascii(n);
    assert(c == tx + seq![DOT] + l.skip(9));
    assert forall|j: int| 0 <= j < c.len() implies !is_sep(c[j]) && c[j] < 0x80 by {
        if j < tx.len() {
            assert(c[j] == x[j]);
            assert(is_stored_byte(n[j]));
        } else if j > tx.len() {
            assert(c[j] == l[9 + j - tx.len() - 1]);
            assert(is_stored_byte(n[9 + j - tx.len() - 1]));
        }
    }
    assert(!exists|i: int| is_last_sep(c, i));
    let u = upper_all(c);
    assert(u == upper_all(tx) + seq![DOT] + upper_all(l.skip(9)));
    lemma_first_of(u, DOT, tx.len() as int);
    let k = tx.len() as int;
    assert(upper_all(tx) == n.take(k)) by {
        assert forall|j: int| 0 <= j < k implies upper_all(tx)[j] == n.take(k)[j] by {
            assert(is_stored_byte(n[j]));
        }
    }
    assert(u.skip(k + 1) == n.skip(9)) by {
        assert forall|j: int| 0 <= j < 3 implies u.skip(k + 1)[j] == n.skip(9)[j] by {
            assert(is_stored_byte(n[9 + j]));
        }
    }
    assert forall|j: int| k <= j < 8 implies n[j] == SPACE by {
        assert(x[j] == SPACE);
        assert(is_stored_byte(n[j]));
    }
    assert(pad(n.take(k), 8) + seq![DOT] + pad(n.skip(9), 3) =~= n);
    assert(all_ascii(n)) by {
        assert forall|j: int| 0 <= j < n.len() implies n[j] < 0x80 by {
            if j != 8 {
                assert(is_stored_byte(n[j]));
            }
        }
    }
    lemma_ascii_utf8(c);
    vstd::utf8::decode_utf8_encode_utf8(c);
    lemma_ascii_chars(c);
}

/// ASCII bytes read as text are ASCII text.
proof fn lemma_ascii_chars(b: Seq<u8>)
    requires
        all_ascii(b),
    ensures
        is_ascii_chars(ascii_text(b)),
{
    assert forall|i: int| 0 <= i < ascii_text(b).len() implies '\0' <= #[trigger] ascii_text(b)[i] <= '\u{7f}' by {
        assert(b[i] < 0x80);
    }
}

/// Canonical form of the stored name `s`.
pub fn canonical_name(s: &[u8]) -> (r: Vec<u8>)
    ensures
        r@ == canonical(s@),
        all_ascii(s@) ==> canonical(s@) == canonical_ascii(s@),
{
    let t = from_utf8_lossy(s);
    let lo = to_lower(t.as_str());
    let b = lo.as_str().as_bytes();
    proof {
        if all_ascii(s@) {
            lemma_ascii_utf8(s@);
            lemma_ascii_chars(s@);
            decode_utf8_encode_utf8(s@);
        }
    }
    cut_bytes(b)
}

/// The name `l` cut at its first dot, base name trimmed.
fn cut_bytes(l: &[u8]) -> (r: Vec<u8>)
    ensures
        r@ == cut_name(l@),
{
    let d = find_first(l, DOT);
    if d == l.len() {
        let mut whole: Vec<u8> = Vec::new();
        let mut k: usize = 0;
        while k < l.len()
            invariant
                k <= l@.len(),
                whole@ == l@.take(k as int),
            decreases l@.len() - k,
        {
            whole.push(l[k]);
            proof {
                assert(l@.take(k + 1) == l@.take(k as int).push(l@[k as int]));
            }
            k += 1;
        }
        assert(l@.take(l@.len() as int) == l@);
        return whole;
    }
    let mut j: usize = d;
    while j > 0 && l[j - 1] == SPACE
        invariant
            j <= d < l@.len(),
            trim_end_spaces(l@.take(j as int)) == trim_end_spaces(l@.take(d as int)),
        decreases j,
    {
        proof {
            assert(l@.take(j as int).drop_last() == l@.take(j - 1));
        }
        j -= 1;
    }
    let mut out: Vec<u8> = Vec::new();
    let mut k: usize = 0;
    while k < j
        invariant
            j <= d < l@.len(),
            k <= j,
            out@ == l@.take(k as int),
        decreases j - k,
    {
        out.push(l[k]);
        proof {
            assert(l@.take(k + 1) == l@.take(k as int).push(l@[k as int]));
        }
        k += 1;
    }
    out.push(DOT);
    let mut k: usize = d + 1;
    while k < l.len()
        invariant
            j <= d < l@.len(),
            d + 1 <= k <= l@.len(),
            out@ == l@.take(j as int) + seq![DOT] + l@.subrange(d + 1, k as int),
        decreases l@.len() - k,
    {
        out.push(l[k]);
        proof {
            assert(l@.subrange(d + 1, k + 1) == l@.subrange(d + 1, k as int).push(l@[k as int]));
        }
        k += 1;
    }
    proof {
        assert(trim_end_spaces(l@.take(j as int)) == l@.take(j as int));
        assert(l@.subrange(d + 1, l@.len() as int) == l@.skip(d + 1));
    }
    out
}

/// Stored form of `name`, or `None` when its base name is longer than 8
/// bytes or its extension longer than 3.
pub fn stored_name(name: &[u8]) -> (r: Option<[u8; 12]>)
    ensures
        match stored(name@) {
            Some(t) => r is Some && r->0@ == t,
            None => r is None,
        },
        all_ascii(name@) ==> stored(name@) == stored_ascii(name@),
{
    let mut k: usize = name.len();
    while k > 0 && !(name[k - 1] == SLASH || name[k - 1] == BACKSLASH)
        invariant
            k <= name@.len(),
            forall|j: int| k <= j < name@.len() ==> !is_sep(name@[j]),
        decreases k,
    {
        k -= 1;
    }
    let ghost file = name@.skip(k as int);
    proof {
        if k > 0 {
            lemma_last_sep(name@, k - 1);
        } else {
            assert(!exists|i: int| is_last_sep(name@, i));
            assert(name@.skip(0) == name@);
        }
    }
    let f = from_utf8_lossy(&name[k..name.len()]);
    let up = to_upper(f.as_str());
    let u = up.as_str().as_bytes();
    proof {
        assert(name@.subrange(k as int, name@.len() as int) == file);
        if all_ascii(name@) {
            assert(all_ascii(file));
            lemma_ascii_utf8(file);
            lemma_ascii_chars(file);
            decode_utf8_encode_utf8(file);
        }
    }
    pack_stored(u)
}

/// The stored form of the upper-cased file name `u`.
fn pack_stored(u: &[u8]) -> (r: Option<[u8; 12]>)
    ensures
        match stored_from_upper(u@) {
            Some(t) => r is Some && r->0@ == t,
            None => r is None,
        },
{
    let d = find_first(u, DOT);
    let ext_len: usize = if d < u.len() { u.len() - d - 1 } else { 0 };
    if d > 8 || ext_len > 3 {
        return None;
    }
    let mut o: [u8; 12] = [SPACE; 12];
    o[8] = DOT;
    let mut i: usize = 0;
    while i < 12
        invariant
            d <= 8,
            ext_len <= 3,
            d < u@.len() ==> ext_len == u@.len() - d - 1,
            d >= u@.len() ==> ext_len == 0,
            d <= u@.len(),
            o@.len() == 12,
            forall|j: int| 0 <= j < 12 ==> #[trigger] o@[j] == if j < i {
                (if j < d { u@[j] } else if j < 8 { SPACE } else if j == 8 { DOT }
                    else if j - 9 < ext_len { u@[d + 1 + j - 9] } else { SPACE })
            } else if j == 8 { DOT } else { SPACE },
        decreases 12 - i,
    {
        if i < d {
            o[i] = u[i];
        } else if i >= 9 && i - 9 < ext_len {
            o[i] = u[d + 1 + i - 9];
        }
        i += 1;
    }
    proof {
        let base = u@.take(d as int);
        let ext = if d < u@.len() { u@.skip(d + 1) } else { Seq::<u8>::empty() };
        assert(o@ == pad(base, 8) + seq![DOT] + pad(ext, 3));
    }
    Some(o)
}

} // verus!
