//! The read side: recognising archive reads, finding the entry a read is
//! for, choosing the override file that serves it, and the bytes handed
//! back in its place.
use vstd::prelude::*;
use vstd::string::StringSliceAdditionalSpecFns;
use crate::compress::{fake_compress, fake_compressed};
use crate::dir::{Dirs, Entry, ARCHIVES};
use crate::dirjson::hex_digit;
use vstd::utf8::encode_utf8;
use crate::name::{all_ascii, ascii_text, canonical, from_utf8_lossy, lemma_ascii_utf8, lossy_text, lower, lower_all, lower_byte, lower_of, to_lower, upper, upper_byte, upper_all};
use crate::overrides::file_id;

verus! {

/// `ED6_DT`, the name prefix of archive files.
pub open spec fn archive_prefix() -> Seq<u8> {
    seq![0x45u8, 0x44, 0x36, 0x5F, 0x44, 0x54]
}

/// `.dat`, the name suffix of archive files.
pub open spec fn archive_suffix() -> Seq<u8> {
    seq![0x2Eu8, 0x64, 0x61, 0x74]
}

/// The archive number a file name stands for: the prefix, two hex digits
/// and the suffix, in any case.
pub open spec fn archive_of_name(b: Seq<u8>) -> Option<usize> {
    if b.len() == 12 && upper_all(b.take(6)) == archive_prefix() && lower_all(b.skip(8))
        == archive_suffix() && hex_digit(b[6]) is Some && hex_digit(b[7]) is Some {
        Some((hex_digit(b[6])->0 * 16 + hex_digit(b[7])->0) as usize)
    } else {
        None
    }
}

fn hex_digit_value(b: u8) -> (r: Option<usize>)
    ensures
        match hex_digit(b) {
            Some(d) => r == Some(d as usize),
            None => r is None,
        },
{
    if 0x30 <= b && b <= 0x39 {
        Some((b - 0x30) as usize)
    } else if 0x41 <= b && b <= 0x46 {
        Some((b - 0x41 + 10) as usize)
    } else if 0x61 <= b && b <= 0x66 {
        Some((b - 0x61 + 10) as usize)
    } else {
        None
    }
}

/// The archive number of an archive file's name (`ED6_DT1A.dat` gives
/// 0x1A); `None` for any other file.
pub fn archive_number(file_name: &str) -> (r: Option<usize>)
    ensures
        r == archive_of_name(file_name.spec_bytes()),
{
    let b = file_name.as_bytes();
    if b.len() != 12 {
        return None;
    }
    let prefix: [u8; 6] = [0x45, 0x44, 0x36, 0x5F, 0x44, 0x54];
    let suffix: [u8; 4] = [0x2E, 0x64, 0x61, 0x74];
    let mut i: usize = 0;
    while i < 6
        invariant
            b@.len() == 12,
            b@ == file_name.spec_bytes(),
            prefix@ == archive_prefix(),
            i <= 6,
            forall|j: int| 0 <= j < i ==> upper(b@[j]) == prefix@[j],
        decreases 6 - i,
    {
        if upper_byte(b[i]) != prefix[i] {
            assert(upper_all(b@.take(6))[i as int] != archive_prefix()[i as int]);
            assert(upper_all(b@.take(6)) != archive_prefix());
            return None;
        }
        i += 1;
    }
    assert(upper_all(b@.take(6)) == archive_prefix());
    let mut i: usize = 0;
    while i < 4
        invariant
            b@.len() == 12,
            b@ == file_name.spec_bytes(),
            upper_all(b@.take(6)) == archive_prefix(),
            suffix@ == archive_suffix(),
            i <= 4,
            forall|j: int| 0 <= j < i ==> lower(b@[8 + j]) == suffix@[j],
        decreases 4 - i,
    {
        if lower_byte(b[8 + i]) != suffix[i] {
            assert(lower_all(b@.skip(8))[i as int] != archive_suffix()[i as int]);
            assert(lower_all(b@.skip(8)) != archive_suffix());
            return None;
        }
        i += 1;
    }
    assert(lower_all(b@.skip(8)) == archive_suffix());
    match (hex_digit_value(b[6]), hex_digit_value(b[7])) {
        (Some(hi), Some(lo)) => Some(hi * 16 + lo),
        _ => None,
    }
}

/// Entry `j` of archive `a` is the one a read of `len` bytes at `pos` is
/// for: the first whose offset and compressed size are those, among the
/// first 65536 entries (those that have a file id).
pub open spec fn is_read_match(t: Seq<Entry>, pos: usize, len: usize, j: int) -> bool {
    &&& 0 <= j < t.len()
    &&& j < 0x1_0000
    &&& t[j].offset == pos && t[j].csize == len
    &&& forall|k: int| 0 <= k < j ==> !(t[k].offset == pos && t[k].csize == len)
}

/// Finds the entry of archive `arc` that a read of `len` bytes at file
/// offset `pos` is for, with its file id.
pub fn find_entry(dirs: &Dirs, arc: usize, pos: usize, len: usize) -> (r: Option<(u32, Entry)>)
    requires
        dirs.wf(),
    ensures
        arc >= ARCHIVES ==> r is None,
        arc < ARCHIVES ==> match r {
            Some((id, e)) => exists|j: int| is_read_match(dirs@.table(arc as int), pos, len, j)
                && id == file_id(arc as int, j) && e == dirs@.table(arc as int)[j],
            None => forall|j: int| 0 <= j < dirs@.table(arc as int).len() && j < 0x1_0000
                ==> !(#[trigger] dirs@.table(arc as int)[j].offset == pos && dirs@.table(arc as int)[j].csize == len),
        },
{
    if arc >= ARCHIVES {
        return None;
    }
    let t = dirs.table_of(arc);
    let mut j: usize = 0;
    while j < t.len() && j < 0x1_0000
        invariant
            arc < ARCHIVES,
            t@ == dirs@.table(arc as int),
            j <= t@.len(),
            j <= 0x1_0000,
            forall|k: int| 0 <= k < j ==> !(#[trigger] t@[k].offset == pos && t@[k].csize == len),
        decreases t@.len() - j,
    {
        if t[j].offset == pos && t[j].csize == len {
            let id = #[verifier::truncate] (((arc << 16usize) | j) as u32);
            assert(is_read_match(t@, pos, len, j as int));
            assert(id == file_id(arc as int, j as int));
            return Some((id, t[j]));
        }
        j += 1;
    }
    None
}

/// Upper-case hex digit of `d`.
pub open spec fn hex_char(d: nat) -> u8 {
    if d < 10 { (0x30 + d) as u8 } else { (0x41 + d - 10) as u8 }
}

/// `n` in upper-case hex, at least two digits.
pub open spec fn hex2(n: nat) -> Seq<u8>
    decreases n,
{
    if n < 256 {
        seq![hex_char(n / 16), hex_char(n % 16)]
    } else {
        hex2(n / 16).push(hex_char(n % 16))
    }
}

/// Name of the directory holding archive `a`'s loose override files.
pub open spec fn archive_dir_bytes(a: nat) -> Seq<u8> {
    archive_prefix() + hex2(a)
}

proof fn lemma_hex2_ascii(n: nat)
    ensures
        all_ascii(hex2(n)),
    decreases n,
{
    if n >= 256 {
        lemma_hex2_ascii(n / 16);
    }
}

fn hex_char_of(d: u32) -> (r: u8)
    requires
        d < 16,
    ensures
        r == hex_char(d as nat),
{
    if d < 10 { (0x30 + d) as u8 } else { (0x41 + d - 10) as u8 }
}

fn push_hex2(out: &mut Vec<u8>, n: u32)
    ensures
        final(out)@ == old(out)@ + hex2(n as nat),
    decreases n,
{
    if n < 256 {
        out.push(hex_char_of(n / 16));
        out.push(hex_char_of(n % 16));
    } else {
        push_hex2(out, n / 16);
        out.push(hex_char_of(n % 16));
    }
}

/// Name of the directory holding archive `a`'s loose override files
/// (`ED6_DT05` for archive 5).
pub fn archive_dir(a: u32) -> (r: String)
    ensures
        r@ == ascii_text(archive_dir_bytes(a as nat)),
{
    let mut b: Vec<u8> = Vec::new();
    b.push(0x45);
    b.push(0x44);
    b.push(0x36);
    b.push(0x5F);
    b.push(0x44);
    b.push(0x54);
    push_hex2(&mut b, a);
    assert(b@ == archive_dir_bytes(a as nat));
    proof {
        lemma_hex2_ascii(a as nat);
        assert(all_ascii(b@));
        lemma_ascii_utf8(b@);
    }
    from_utf8_lossy(b.as_slice())
}

/// The places an override for one entry may be found, in order of
/// preference: the entry's own replacement path if it is an override entry;
/// its canonical name in its archive's directory; and, when spaced names are
/// probed, its stored name with the padding kept, in that directory.
pub struct Candidates {
    pub explicit: Option<String>,
    pub dir: String,
    pub implicit: String,
    pub spaced: Option<String>,
}

/// Which candidate serves a read.
#[derive(Clone, Copy, PartialEq, Eq, Structural, Debug)]
pub enum Pick {
    Explicit,
    Implicit,
    Spaced,
}

/// The candidates for entry `e` with file id `fileid`.
pub fn redirect_candidates(dirs: &Dirs, fileid: u32, e: &Entry, spaced: bool) -> (r: Candidates)
    ensures
        match dirs@.path_of(*e) {
            Some(p) => r.explicit is Some && r.explicit->0@ == p,
            None => r.explicit is None,
        },
        r.dir@ == ascii_text(archive_dir_bytes((fileid >> 16u32) as nat)),
        r.implicit@ == lossy_text(canonical(e.stored_name@)),
        spaced ==> r.spaced is Some && r.spaced->0@ == lossy_text(e.stored_name@),
        !spaced ==> r.spaced is None,
{
    let explicit = match dirs.path_of(e) {
        Some(p) => Some(p.to_owned()),
        None => None,
    };
    let spaced_name = if spaced {
        Some(from_utf8_lossy(e.stored_name.as_slice()))
    } else {
        None
    };
    Candidates { explicit, dir: archive_dir(fileid >> 16), implicit: e.name(), spaced: spaced_name }
}

/// Which candidate serves a read, given which of them exist: an existing
/// replacement path first, then an existing canonical-name file, then an
/// existing spaced-name file when those are probed; else none.
pub open spec fn choice(
    has_explicit: bool,
    probes_spaced: bool,
    explicit_exists: bool,
    implicit_exists: bool,
    spaced_exists: bool,
) -> Option<Pick> {
    if has_explicit && explicit_exists {
        Some(Pick::Explicit)
    } else if implicit_exists {
        Some(Pick::Implicit)
    } else if probes_spaced && spaced_exists {
        Some(Pick::Spaced)
    } else {
        None
    }
}

/// Chooses the file that serves a read from the candidates and whether each
/// one exists (a missing candidate's answer is not looked at).
pub fn get_redirect_file(c: &Candidates, explicit_exists: bool, implicit_exists: bool, spaced_exists: bool) -> (r: Option<Pick>)
    ensures
        r == choice(c.explicit is Some, c.spaced is Some, explicit_exists, implicit_exists, spaced_exists),
{
    if c.explicit.is_some() && explicit_exists {
        Some(Pick::Explicit)
    } else if implicit_exists {
        Some(Pick::Implicit)
    } else if c.spaced.is_some() && spaced_exists {
        Some(Pick::Spaced)
    } else {
        None
    }
}

/// An existing replacement path wins over an existing canonical-name file
/// (and over a spaced-name one) for the same entry.
pub proof fn lemma_explicit_first(probes_spaced: bool, implicit_exists: bool, spaced_exists: bool)
    ensures
        choice(true, probes_spaced, true, implicit_exists, spaced_exists) == Some(Pick::Explicit),
{
}

/// Extensions of files that are stored uncompressed in the archives and so
/// are served as they are: those whose lower case is `_ds` or `wav`.
pub open spec fn is_raw_ext(ext: Seq<char>) -> bool {
    let l = encode_utf8(lower_of(ext));
    l == seq![0x5Fu8, 0x64, 0x73] || l == seq![0x77u8, 0x61, 0x76]
}

fn bytes_are(b: &[u8], want: &[u8; 3]) -> (r: bool)
    ensures
        r == (b@ == want@),
{
    if b.len() != 3 {
        assert(want@.len() == 3);
        return false;
    }
    let mut i: usize = 0;
    while i < 3
        invariant
            b@.len() == 3,
            want@.len() == 3,
            i <= 3,
            forall|j: int| 0 <= j < i ==> b@[j] == want@[j],
        decreases 3 - i,
    {
        if b[i] != want[i] {
            return false;
        }
        i += 1;
    }
    assert(b@ == want@);
    true
}

/// Whether a file with extension `ext` is served as it is.
pub fn is_raw_extension(ext: &str) -> (r: bool)
    ensures
        r == is_raw_ext(ext@),
{
    let lo = to_lower(ext);
    let b = lo.as_str().as_bytes();
    let ds: [u8; 3] = [0x5F, 0x64, 0x73];
    let wav: [u8; 3] = [0x77, 0x61, 0x76];
    assert(ds@ == seq![0x5Fu8, 0x64, 0x73]);
    assert(wav@ == seq![0x77u8, 0x61, 0x76]);
    bytes_are(b, &ds) || bytes_are(b, &wav)
}

/// The bytes that serve a read from an override file with extension `ext`
/// and contents `data`: the contents themselves for a raw extension, else
/// the contents wrapped in raw chunks.
pub fn encode_override(ext: Option<&str>, data: Vec<u8>) -> (r: Vec<u8>)
    ensures
        match ext {
            Some(x) if is_raw_ext(x@) => r@ == data@,
            _ => r@ == fake_compressed(data@),
        },
{
    let raw = match ext {
        Some(x) => is_raw_extension(x),
        None => false,
    };
    if raw {
        data
    } else {
        fake_compress(data.as_slice())
    }
}

/// The entry and file id an intercepted read is for: a read of `len`
/// bytes at `pos` in the file named `file_name`, when that is an archive.
pub fn match_read(dirs: &Dirs, file_name: &str, pos: usize, len: usize) -> (r: Option<(u32, Entry)>)
    requires
        dirs.wf(),
    ensures
        match archive_of_name(file_name.spec_bytes()) {
            Some(a) if a < ARCHIVES => match r {
                Some((id, e)) => exists|j: int| is_read_match(dirs@.table(a as int), pos, len, j)
                    && id == file_id(a as int, j) && e == dirs@.table(a as int)[j],
                None => forall|j: int| 0 <= j < dirs@.table(a as int).len() && j < 0x1_0000
                    ==> !(#[trigger] dirs@.table(a as int)[j].offset == pos && dirs@.table(a as int)[j].csize == len),
            },
            _ => r is None,
        },
{
    match archive_number(file_name) {
        Some(a) => find_entry(dirs, a, pos, len),
        None => None,
    }
}

} // verus!
