//! The override description: which assets to replace, keyed by numeric file
//! id or by stored name, and where the replacement files are.
use vstd::prelude::*;
use vstd::string::StringSliceAdditionalSpecFns;

verus! {

/// Value of a hex digit, if `b` is one.
pub open spec fn hex_digit(b: u8) -> Option<nat> {
    if 0x30 <= b <= 0x39 {
        Some((b - 0x30) as nat)
    } else if 0x41 <= b <= 0x46 {
        Some((b - 0x41 + 10) as nat)
    } else if 0x61 <= b <= 0x66 {
        Some((b - 0x61 + 10) as nat)
    } else {
        None
    }
}

pub open spec fn all_hex(s: Seq<u8>) -> bool {
    forall|i: int| 0 <= i < s.len() ==> (#[trigger] hex_digit(s[i])) is Some
}

/// The number that the hex digits `s` spell, most significant first.
pub open spec fn hex_value(s: Seq<u8>) -> nat
    decreases s.len(),
{
    if s.len() == 0 {
        0
    } else {
        hex_value(s.drop_last()) * 16 + match hex_digit(s.last()) {
            Some(d) => d,
            None => 0,
        }
    }
}

/// A hex number as `u32::from_str_radix(_, 16)` reads it: an optional `+`,
/// then at least one hex digit, of a value that fits in 32 bits.
pub open spec fn parse_hex_u32(s: Seq<u8>) -> Option<u32> {
    let d = if s.len() > 0 && s[0] == 0x2B { s.skip(1) } else { s };
    if d.len() == 0 || !all_hex(d) || hex_value(d) > u32::MAX {
        None
    } else {
        Some(hex_value(d) as u32)
    }
}

/// The text starts with `0x`.
pub open spec fn has_hex_prefix(s: Seq<u8>) -> bool {
    s.len() >= 2 && s[0] == 0x30 && s[1] == 0x78
}

proof fn lemma_hex_value_grows(s: Seq<u8>, k: int)
    requires
        0 <= k <= s.len(),
    ensures
        hex_value(s.take(k)) <= hex_value(s),
    decreases s.len() - k,
{
    if k < s.len() {
        lemma_hex_value_grows(s, k + 1);
        assert(s.take(k + 1).drop_last() == s.take(k));
    } else {
        assert(s.take(k) == s);
    }
}

fn hex_digit_of(b: u8) -> (r: Option<u32>)
    ensures
        match hex_digit(b) {
            Some(d) => r == Some(d as u32),
            None => r is None,
        },
{
    if 0x30 <= b && b <= 0x39 {
        Some((b - 0x30) as u32)
    } else if 0x41 <= b && b <= 0x46 {
        Some((b - 0x41 + 10) as u32)
    } else if 0x61 <= b && b <= 0x66 {
        Some((b - 0x61 + 10) as u32)
    } else {
        None
    }
}

/// Reads `s` as `u32::from_str_radix(s, 16)` does.
pub fn parse_hex(s: &[u8]) -> (r: Option<u32>)
    ensures
        r == parse_hex_u32(s@),
{
    let start: usize = if s.len() > 0 && s[0] == 0x2B { 1 } else { 0 };
    let ghost d = if s@.len() > 0 && s@[0] == 0x2B { s@.skip(1) } else { s@ };
    assert(d == s@.skip(start as int));
    if start == s.len() {
        return None;
    }
    let mut acc: u32 = 0;
    let mut i: usize = start;
    while i < s.len()
        invariant
            start <= i <= s@.len(),
            d == s@.skip(start as int),
            d == if s@.len() > 0 && s@[0] == 0x2B { s@.skip(1) } else { s@ },
            all_hex(d.take(i - start)),
            acc == hex_value(d.take(i - start)),
        decreases s@.len() - i,
    {
        let ghost k = i - start;
        assert(d.take(k + 1).drop_last() == d.take(k));
        assert(d[k] == s@[i as int]);
        assert(d.take(k + 1).last() == s@[i as int]);
        match hex_digit_of(s[i]) {
            None => {
                assert(hex_digit(d[k]) is None);
                assert(!all_hex(d));
                return None;
            },
            Some(v) => {
                assert(all_hex(d.take(k + 1))) by {
                    assert forall|j: int| 0 <= j < k + 1 implies (#[trigger] hex_digit(d.take(k + 1)[j])) is Some by {
                        if j < k {
                            assert(d.take(k + 1)[j] == d.take(k)[j]);
                        }
                    }
                }
                if acc > (u32::MAX - v) / 16 {
                    proof {
                        assert(hex_value(d.take(k + 1)) > u32::MAX) by (nonlinear_arith)
                            requires
                                hex_value(d.take(k + 1)) == acc * 16 + v,
                                acc > (u32::MAX - v) / 16,
                                v < 16;
                        if all_hex(d) {
                            lemma_hex_value_grows(d, k + 1);
                        }
                    }
                    return None;
                }
                assert(acc * 16 + v <= u32::MAX) by (nonlinear_arith)
                    requires
                        acc <= (u32::MAX - v) / 16,
                        v < 16;
                acc = acc * 16 + v;
            },
        }
        i += 1;
    }
    assert(d.take(d.len() as int) == d);
    Some(acc)
}

/// How an override is addressed: by numeric file id (archive in the high 16
/// bits, index in the low 16) or by name.
#[derive(Clone, PartialEq, Eq, Debug)]
pub enum Key {
    Id(u32),
    Name(String),
}

/// The text is a file id: `0x` followed by exactly 8 hex digits.
pub open spec fn is_id_key(s: Seq<u8>) -> bool {
    s.len() == 10 && has_hex_prefix(s) && all_hex(s.skip(2))
}

pub open spec fn pow16(n: nat) -> nat
    decreases n,
{
    if n == 0 { 1 } else { 16 * pow16((n - 1) as nat) }
}

proof fn lemma_hex_value_bound(s: Seq<u8>)
    requires
        all_hex(s),
    ensures
        hex_value(s) < pow16(s.len()),
    decreases s.len(),
{
    if s.len() > 0 {
        let t = s.drop_last();
        assert(all_hex(t)) by {
            assert forall|i: int| 0 <= i < t.len() implies (#[trigger] hex_digit(t[i])) is Some by {
                assert(t[i] == s[i]);
            }
        }
        lemma_hex_value_bound(t);
        assert(hex_digit(s[s.len() - 1]) is Some);
        let d = hex_digit(s.last())->0;
        assert(d < 16);
        assert(hex_value(s) == hex_value(t) * 16 + d);
        assert(hex_value(t) * 16 + d < pow16(t.len()) * 16) by (nonlinear_arith)
            requires
                hex_value(t) < pow16(t.len()),
                d < 16;
    }
}

impl Key {
    /// Reads a key: `0x` followed by exactly 8 hex digits is a file id,
    /// anything else is a name.
    pub fn parse(s: &str) -> (r: Key)
        ensures
            is_id_key(s.spec_bytes()) ==> r == Key::Id(hex_value(s.spec_bytes().skip(2)) as u32),
            !is_id_key(s.spec_bytes()) ==> (r matches Key::Name(n) && n@ == s@),
    {
        let b = s.as_bytes();
        if b.len() == 10 && b[0] == 0x30 && b[1] == 0x78 {
            let rest = &b[2..b.len()];
            assert(rest@ == b@.skip(2));
            if rest[0] != 0x2B {
                match parse_hex(rest) {
                    Some(id) => {
                        return Key::Id(id);
                    },
                    None => {
                        proof {
                            if all_hex(rest@) {
                                lemma_hex_value_bound(rest@);
                                reveal_with_fuel(pow16, 9);
                                assert(pow16(8) == 0x1_0000_0000);
                            }
                        }
                    },
                }
            } else {
                assert(hex_digit(rest@[0]) is None);
            }
        }
        Key::Name(s.to_owned())
    }
}

/// One override: an optional display name and the replacement path.
#[derive(Clone, PartialEq, Eq, Debug)]
pub struct Entry {
    pub name: Option<String>,
    pub path: String,
}

impl Entry {
    /// The entry a bare path stands for: no display name.
    pub fn from_path(s: &str) -> (r: Entry)
        ensures
            r.name is None,
            r.path@ == s@,
    {
        Entry { name: None, path: s.to_owned() }
    }
}

/// The two shapes an entry may be written in: a bare path, or a record with
/// an optional name and a path.
#[derive(Clone, PartialEq, Eq, Debug)]
pub enum StringOrStruct {
    Str(String),
    Struct(Entry),
}

impl StringOrStruct {
    pub fn into_entry(self) -> (r: Entry)
        ensures
            match self {
                StringOrStruct::Str(p) => r.name is None && r.path@ == p@,
                StringOrStruct::Struct(e) => r == e,
            },
    {
        match self {
            StringOrStruct::Str(p) => Entry::from_path(p.as_str()),
            StringOrStruct::Struct(e) => e,
        }
    }
}

/// A whole description file: its entries in the order they are written.
#[derive(Clone, PartialEq, Eq, Debug)]
pub struct DirJson {
    pub entries: Vec<(Key, Entry)>,
}

} // verus!
