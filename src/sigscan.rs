//! The pattern scanner: finds a byte pattern with wildcard positions in an
//! image of the host's code, and the patterns that locate the host's
//! directory cells and the two routines this library wraps.
use vstd::prelude::*;

verus! {

/// The pattern matches `data` at position `p`: it fits, and every byte it
/// fixes is there.
pub open spec fn matches_at(data: Seq<u8>, sig: Seq<Option<u8>>, p: int) -> bool {
    &&& 0 <= p
    &&& p + sig.len() <= data.len()
    &&& forall|i: int| 0 <= i < sig.len() ==> (#[trigger] sig[i] matches Some(b) ==> data[p + i] == b)
}

/// Relies on `memchr::memchr`: the index of the first occurrence of
/// `needle` in `hay`, if any.
#[verifier::external_body]
fn memchr(needle: u8, hay: &[u8]) -> (r: Option<usize>)
    ensures
        match r {
            Some(i) => i < hay@.len() && hay@[i as int] == needle && forall|j: int| 0 <= j < i ==> hay@[j] != needle,
            None => forall|j: int| 0 <= j < hay@.len() ==> hay@[j] != needle,
        },
{
    memchr::memchr(needle, hay)
}

fn matches_here(data: &[u8], sig: &[Option<u8>], p: usize) -> (r: bool)
    requires
        p + sig@.len() <= data@.len(),
    ensures
        r == matches_at(data@, sig@, p as int),
{
    let n = data.len();
    let mut i: usize = 0;
    while i < sig.len()
        invariant
            n == data@.len(),
            p + sig@.len() <= data@.len(),
            i <= sig@.len(),
            forall|k: int| 0 <= k < i ==> (#[trigger] sig@[k] matches Some(b) ==> data@[p + k] == b),
        decreases sig@.len() - i,
    {
        match sig[i] {
            Some(b) => {
                if data[p + i] != b {
                    return false;
                }
            },
            None => {},
        }
        i += 1;
    }
    true
}

/// Position of the first match of `sig` in `data`. The first byte of the
/// pattern is fixed; candidates are the places where it occurs.
pub fn scan(data: &[u8], sig: &[Option<u8>]) -> (r: Option<usize>)
    requires
        sig@.len() > 0,
        sig@[0] is Some,
    ensures
        match r {
            Some(p) => matches_at(data@, sig@, p as int) && forall|q: int| 0 <= q < p ==> !matches_at(data@, sig@, q),
            None => forall|q: int| !matches_at(data@, sig@, q),
        },
{
    let first = match sig[0] {
        Some(b) => b,
        None => 0,
    };
    let mut pos: usize = 0;
    while pos < data.len()
        invariant
            sig@.len() > 0,
            sig@[0] == Some(first),
            pos <= data@.len(),
            forall|q: int| 0 <= q < pos ==> !matches_at(data@, sig@, q),
        decreases data@.len() - pos,
    {
        let rest = &data[pos..data.len()];
        match memchr(first, rest) {
            None => {
                assert forall|q: int| pos <= q implies !matches_at(data@, sig@, q) by {
                    if matches_at(data@, sig@, q) {
                        assert(sig@[0] matches Some(b) ==> data@[q + 0] == b);
                        assert(rest@[q - pos] == data@[q]);
                    }
                }
                return None;
            },
            Some(k) => {
                let p = pos + k;
                assert forall|q: int| pos <= q < p implies !matches_at(data@, sig@, q) by {
                    if matches_at(data@, sig@, q) {
                        assert(sig@[0] matches Some(b) ==> data@[q + 0] == b);
                        assert(rest@[q - pos] == data@[q]);
                    }
                }
                if sig.len() > data.len() - p {
                    assert forall|q: int| p <= q implies !matches_at(data@, sig@, q) by {}
                    return None;
                }
                if matches_here(data, sig, p) {
                    return Some(p);
                }
                pos = p + 1;
            },
        }
    }
    None
}

/// Locates the host's per-archive length and pointer cells:
/// `mov [edi*4 + lens], esi; add ebx, ?; mov [edi*4 + ptrs], eax; inc edi`.
pub open spec fn dir_cells_sig() -> Seq<Option<u8>> {
    seq![
        Some(0x89u8), Some(0x34u8), Some(0xBDu8), None, None, None, None,
        Some(0x81u8), Some(0xC3u8), None, None, None, None,
        Some(0x89u8), Some(0x04u8), Some(0xBDu8), None, None, None, None,
        Some(0x47u8),
    ]
}

/// Locates the host's routine that reads from a file:
/// `mov eax, ?; sub esp, 8; mov ?, eax`.
pub open spec fn read_file_sig() -> Seq<Option<u8>> {
    seq![
        Some(0xA1u8), None, None, None, None,
        Some(0x83u8), Some(0xECu8), Some(0x08u8),
        Some(0xA3u8), None, None, None, None,
    ]
}

/// Locates the host's routine that loads the directory tables:
/// `push ebp; mov ebp, esp; and esp, ~7; sub esp, 0x29C`.
pub open spec fn read_dir_files_sig() -> Seq<Option<u8>> {
    seq![
        Some(0x55u8), Some(0x8Bu8), Some(0xECu8), Some(0x83u8), Some(0xE4u8), Some(0xF8u8),
        Some(0x81u8), Some(0xECu8), Some(0x9Cu8), Some(0x02u8), Some(0x00u8), Some(0x00u8),
    ]
}

fn pattern(bytes: &[u8], fixed: &[bool]) -> (r: Vec<Option<u8>>)
    requires
        bytes@.len() == fixed@.len(),
    ensures
        r@.len() == bytes@.len(),
        forall|i: int| 0 <= i < r@.len() ==> #[trigger] r@[i] == if fixed@[i] { Some(bytes@[i]) } else { None::<u8> },
{
    let mut r: Vec<Option<u8>> = Vec::new();
    let mut i: usize = 0;
    while i < bytes.len()
        invariant
            bytes@.len() == fixed@.len(),
            i <= bytes@.len(),
            r@.len() == i,
            forall|j: int| 0 <= j < i ==> #[trigger] r@[j] == if fixed@[j] { Some(bytes@[j]) } else { None::<u8> },
        decreases bytes@.len() - i,
    {
        r.push(if fixed[i] { Some(bytes[i]) } else { None });
        i += 1;
    }
    r
}

/// The pattern that locates the directory cells.
pub fn dir_cells_pattern() -> (r: Vec<Option<u8>>)
    ensures
        r@ == dir_cells_sig(),
{
    let bytes: [u8; 21] = [0x89, 0x34, 0xBD, 0, 0, 0, 0, 0x81, 0xC3, 0, 0, 0, 0, 0x89, 0x04, 0xBD, 0, 0, 0, 0, 0x47];
    let fixed: [bool; 21] = [
        true, true, true, false, false, false, false, true, true, false, false, false, false,
        true, true, true, false, false, false, false, true,
    ];
    let r = pattern(bytes.as_slice(), fixed.as_slice());
    assert(r@ =~= dir_cells_sig());
    r
}

/// The pattern that locates the file reading routine.
pub fn read_file_pattern() -> (r: Vec<Option<u8>>)
    ensures
        r@ == read_file_sig(),
{
    let bytes: [u8; 13] = [0xA1, 0, 0, 0, 0, 0x83, 0xEC, 0x08, 0xA3, 0, 0, 0, 0];
    let fixed: [bool; 13] = [true, false, false, false, false, true, true, true, true, false, false, false, false];
    let r = pattern(bytes.as_slice(), fixed.as_slice());
    assert(r@ =~= read_file_sig());
    r
}

/// The pattern that locates the directory loading routine.
pub fn read_dir_files_pattern() -> (r: Vec<Option<u8>>)
    ensures
        r@ == read_dir_files_sig(),
{
    let bytes: [u8; 12] = [0x55, 0x8B, 0xEC, 0x83, 0xE4, 0xF8, 0x81, 0xEC, 0x9C, 0x02, 0x00, 0x00];
    let fixed: [bool; 12] = [true, true, true, true, true, true, true, true, true, true, true, true];
    let r = pattern(bytes.as_slice(), fixed.as_slice());
    assert(r@ =~= read_dir_files_sig());
    r
}

/// Little-endian 32-bit value at `i`.
pub open spec fn le32_at(s: Seq<u8>, i: int) -> nat {
    s[i] as nat + s[i + 1] as nat * 0x100 + s[i + 2] as nat * 0x1_0000 + s[i + 3] as nat * 0x100_0000
}

fn read_le32(s: &[u8], i: usize) -> (r: u32)
    requires
        i + 4 <= s@.len(),
    ensures
        r as nat == le32_at(s@, i as int),
{
    let v = s[i] as u32 + s[i + 1] as u32 * 0x100 + s[i + 2] as u32 * 0x1_0000 + s[i + 3] as u32 * 0x100_0000;
    v
}

/// Addresses of the length cells and of the pointer cells, read from the
/// first place in `image` where the directory-cell pattern matches (the
/// displacements of its two stores); `None` when it matches nowhere.
pub fn locate_dir_cells(image: &[u8]) -> (r: Option<(u32, u32)>)
    ensures
        match r {
            Some((lens, ptrs)) => exists|p: int| matches_at(image@, dir_cells_sig(), p)
                && (forall|q: int| 0 <= q < p ==> !matches_at(image@, dir_cells_sig(), q))
                && lens as nat == le32_at(image@, p + 3) && ptrs as nat == le32_at(image@, p + 16),
            None => forall|q: int| !matches_at(image@, dir_cells_sig(), q),
        },
{
    let sig = dir_cells_pattern();
    let n = image.len();
    match scan(image, sig.as_slice()) {
        Some(p) => {
            assert(p + 21 <= n);
            let lens = read_le32(image, p + 3);
            let ptrs = read_le32(image, p + 16);
            Some((lens, ptrs))
        },
        None => None,
    }
}

} // verus!
