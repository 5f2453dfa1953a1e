//! The directory tables: the host's per-archive entry arrays and the shadow
//! store that mirrors them and lets them grow past the capacity the host gave them.
use vstd::prelude::*;
use vstd::string::StringSliceAdditionalSpecFns;
use vstd::utf8::{encode_utf8, is_ascii_chars, is_ascii_chars_encode_utf8};
use crate::name::{all_ascii, ascii_text, lemma_ascii_utf8, lemma_canonical_ascii, canonical, canonical_ascii, canonical_name, from_utf8_lossy, lossy_text, stored, stored_ascii, stored_name};

verus! {

/// Number of archive slots the host keeps a directory table for.
pub const ARCHIVES: usize = 64;

/// `archive_size` value that marks an entry written by this library: such
/// an entry redirects its asset to an override file.
pub const OVERRIDE_MAGIC: usize = 888888888;

/// Stored name of an unused slot.
pub open spec fn unused_name() -> Seq<u8> {
    seq![0x2Fu8, 0x5F, 0x5F, 0x5F, 0x5F, 0x5F, 0x5F, 0x5F, 0x2E, 0x5F, 0x5F, 0x5F]
}

/// One directory entry, laid out as the host lays it out.
///
/// For an override entry `unk1` holds the index of its path in the store's
/// path list and `unk2` the path's length; for a native entry they are a
/// timestamp and an unused id.
#[derive(Clone, Copy, Debug)]
pub struct Entry {
    pub stored_name: [u8; 12],
    pub unk1: u32,
    pub csize: usize,
    pub unk2: u32,
    pub asize: usize,
    pub ts: u32,
    pub offset: usize,
}

impl Entry {
    /// The entry of an unused slot, as `default` makes it.
    pub open spec fn is_unused(&self) -> bool {
        &&& self.stored_name@ == unused_name()
        &&& self.unk1 == 0
        &&& self.csize == 0
        &&& self.unk2 == 0
        &&& self.asize == 0
        &&& self.ts == 0
        &&& self.offset == 0
    }

    /// An entry written by this library (offset 0, the magic archive size).
    pub open spec fn is_override(&self) -> bool {
        self.offset == 0 && self.asize == OVERRIDE_MAGIC
    }

    /// Canonical name as bytes: lower case, base name without its padding.
    pub fn name_bytes(&self) -> (r: Vec<u8>)
        ensures
            r@ == canonical(self.stored_name@),
            all_ascii(self.stored_name@) ==> r@ == canonical_ascii(self.stored_name@),
    {
        canonical_name(self.stored_name.as_slice())
    }

    /// Canonical name: lower case, base name without its space padding
    /// (`"FOO     .BIN"` gives `"foo.bin"`).
    pub fn name(&self) -> (r: String)
        ensures
            r@ == lossy_text(canonical(self.stored_name@)),
            all_ascii(self.stored_name@) ==> r@ == ascii_text(canonical_ascii(self.stored_name@)),
    {
        let b = self.name_bytes();
        proof {
            if all_ascii(self.stored_name@) {
                lemma_canonical_ascii(self.stored_name@);
                lemma_ascii_utf8(b@);
            }
        }
        from_utf8_lossy(b.as_slice())
    }

    /// Stored 8.3 form of `name` (a path's directories are dropped), or
    /// `None` when the base name is longer than 8 bytes or the extension
    /// longer than 3.
    pub fn to_stored_name(name: &str) -> (r: Option<[u8; 12]>)
        ensures
            match stored(name.spec_bytes()) {
                Some(t) => r is Some && r->0@ == t,
                None => r is None,
            },
            is_ascii_chars(name@) ==> stored(name.spec_bytes()) == stored_ascii(name.spec_bytes()),
    {
        proof {
            if is_ascii_chars(name@) {
                is_ascii_chars_encode_utf8(name@);
                assert(all_ascii(name.spec_bytes())) by {
                    assert forall|i: int| 0 <= i < name.spec_bytes().len() implies name.spec_bytes()[i] < 0x80 by {
                        assert(name@[i] as u8 == encode_utf8(name@)[i]);
                    }
                }
            }
        }
        stored_name(name.as_bytes())
    }
}

/// What the host's table pointer for one archive refers to.
#[derive(Clone, Copy, PartialEq, Eq, Structural, Debug)]
pub enum Source {
    /// No table.
    Null,
    /// The host's own fixed-capacity array.
    Host,
    /// The store's growable copy.
    Shadow,
}

/// The unused entry (all unused entries are this one value).
pub open spec fn unused_entry() -> Entry {
    choose|e: Entry| e.is_unused()
}

pub proof fn lemma_unused_entry(e: Entry)
    requires
        e.is_unused(),
    ensures
        e == unused_entry(),
{
    let u = unused_entry();
    assert(u.is_unused());
    assert(e.stored_name =~= u.stored_name);
}

pub proof fn lemma_unused_exists()
    ensures
        unused_entry().is_unused(),
{
    let n: [u8; 12] = [0x2F, 0x5F, 0x5F, 0x5F, 0x5F, 0x5F, 0x5F, 0x5F, 0x2E, 0x5F, 0x5F, 0x5F];
    let e = Entry { stored_name: n, unk1: 0, csize: 0, unk2: 0, asize: 0, ts: 0, offset: 0 };
    assert(n@ == unused_name());
    assert(e.is_unused());
}

/// Abstract state of the directory tables: per archive, the pointer and
/// length cells, the host's array and the store's copy; and the replacement
/// paths that override entries refer to by index.
#[verifier::ext_equal]
pub struct DirsView {
    pub ptrs: Seq<Source>,
    pub lens: Seq<nat>,
    pub host: Seq<Seq<Entry>>,
    pub shadow: Seq<Seq<Entry>>,
    pub paths: Seq<Seq<char>>,
}

impl DirsView {
    /// The table of archive `a` as the host sees it: nothing for a null
    /// pointer, else as many entries as the length cell says, from the array
    /// the pointer refers to.
    pub open spec fn table(self, a: int) -> Seq<Entry> {
        match self.ptrs[a] {
            Source::Null => Seq::empty(),
            Source::Host => self.host[a].take(self.lens[a] as int),
            Source::Shadow => self.shadow[a].take(self.lens[a] as int),
        }
    }

    /// The store's copy of archive `a` once brought up to date: a fresh copy
    /// when the pointer refers to the host's array, its own first entries
    /// when it refers to the copy, unchanged when null.
    pub open spec fn synced(self, a: int) -> Seq<Entry> {
        match self.ptrs[a] {
            Source::Null => self.shadow[a],
            _ => self.table(a),
        }
    }

    /// The up-to-date copy, grown with unused entries so that slot `i` exists.
    pub open spec fn grown(self, a: int, i: int) -> Seq<Entry> {
        let b = self.synced(a);
        if i < b.len() {
            b
        } else {
            b + Seq::new((i + 1 - b.len()) as nat, |j: int| unused_entry())
        }
    }

    /// The state after slot `i` of archive `a` was made to hold `e` through
    /// the store: the grown copy with `e` in place, and the archive's cells
    /// pointing at the copy and its length.
    pub open spec fn with_slot(self, a: int, i: int, e: Entry) -> DirsView {
        let g = self.grown(a, i).update(i, e);
        DirsView {
            ptrs: self.ptrs.update(a, Source::Shadow),
            lens: self.lens.update(a, g.len()),
            shadow: self.shadow.update(a, g),
            ..self
        }
    }

    /// The state after entry `i` of archive `a`'s table was overwritten in
    /// place with `e`, in whichever array the pointer cell refers to.
    pub open spec fn with_entry(self, a: int, i: int, e: Entry) -> DirsView {
        match self.ptrs[a] {
            Source::Host => DirsView { host: self.host.update(a, self.host[a].update(i, e)), ..self },
            Source::Shadow => DirsView { shadow: self.shadow.update(a, self.shadow[a].update(i, e)), ..self },
            Source::Null => self,
        }
    }

    /// The replacement path of an override entry.
    pub open spec fn path_of(self, e: Entry) -> Option<Seq<char>> {
        if e.is_override() && e.unk1 < self.paths.len() {
            Some(self.paths[e.unk1 as int])
        } else {
            None
        }
    }
}

/// Writing slot `k` of archive `a` at or past the end of its table as the
/// host sees it (of length `L`) leaves, as the host sees it, a table of
/// `k + 1` entries: the first `L` as they were, those from `L` up to `k`
/// unused, and the written one at `k`; the archive's cells now refer to the
/// store's copy and its length.
pub proof fn lemma_growth(v: DirsView, a: int, k: int, e: Entry)
    requires
        view_wf(v),
        0 <= a < ARCHIVES,
        k >= v.table(a).len(),
    ensures
        ({
            let w = v.with_slot(a, k, e);
            let old_table = v.table(a);
            &&& w.ptrs[a] == Source::Shadow
            &&& w.lens[a] == k + 1
            &&& w.table(a).len() == k + 1
            &&& forall|j: int| 0 <= j < old_table.len() ==> #[trigger] w.table(a)[j] == old_table[j]
            &&& forall|j: int| old_table.len() <= j < k ==> (#[trigger] w.table(a)[j]).is_unused()
            &&& w.table(a)[k] == e
        }),
{
    lemma_unused_exists();
    assert(v.synced(a) == v.table(a));
    let w = v.with_slot(a, k, e);
    assert(w.table(a) =~= v.grown(a, k).update(k, e));
}

/// The host's directory tables for all archive slots, seen through the
/// pointer and length cells the host reads them by, together with the
/// store's growable copies of them.
///
/// A table is read live from whatever its pointer cell refers to. Once the
/// store has written to an archive's table, that cell refers to the store's
/// copy for good (until the host installs an array of its own again).
pub struct Dirs {
    /// Pointer cells, one per archive.
    ptrs: Vec<Source>,
    /// Length cells, one per archive.
    lens: Vec<usize>,
    /// The host's own arrays.
    host: Vec<Vec<Entry>>,
    /// The store's copies.
    entries: Vec<Vec<Entry>>,
    /// Replacement paths that override entries refer to by index.
    paths: Vec<String>,
}

impl View for Dirs {
    type V = DirsView;

    closed spec fn view(&self) -> DirsView {
        DirsView {
            ptrs: self.ptrs@,
            lens: self.lens@.map_values(|n: usize| n as nat),
            host: self.host@.map_values(|v: Vec<Entry>| v@),
            shadow: self.entries@.map_values(|v: Vec<Entry>| v@),
            paths: self.paths@.map_values(|p: String| p@),
        }
    }
}

/// The view of well-formed tables: a cell for every archive, and every
/// length cell within the array its pointer refers to.
pub open spec fn view_wf(v: DirsView) -> bool {
    &&& v.ptrs.len() == ARCHIVES
    &&& v.lens.len() == ARCHIVES
    &&& v.host.len() == ARCHIVES
    &&& v.shadow.len() == ARCHIVES
    &&& forall|a: int| 0 <= a < ARCHIVES ==> {
        &&& v.ptrs[a] == Source::Host ==> v.lens[a] <= v.host[a].len()
        &&& v.ptrs[a] == Source::Shadow ==> v.lens[a] <= v.shadow[a].len()
        &&& v.ptrs[a] == Source::Null ==> v.shadow[a].len() == 0
    }
}

impl Dirs {
    pub open spec fn wf(&self) -> bool {
        view_wf(self@)
    }

    /// A store over empty host cells.
    pub fn new() -> (r: Dirs)
        ensures
            r.wf(),
            forall|a: int| 0 <= a < ARCHIVES ==> r@.ptrs[a] == Source::Null && r@.shadow[a].len() == 0,
            r@.paths.len() == 0,
    {
        let mut ptrs: Vec<Source> = Vec::new();
        let mut lens: Vec<usize> = Vec::new();
        let mut host: Vec<Vec<Entry>> = Vec::new();
        let mut entries: Vec<Vec<Entry>> = Vec::new();
        let mut i: usize = 0;
        while i < ARCHIVES
            invariant
                i <= ARCHIVES,
                ptrs@.len() == i,
                lens@.len() == i,
                host@.len() == i,
                entries@.len() == i,
                forall|a: int| 0 <= a < i ==> ptrs@[a] == Source::Null && entries@[a]@.len() == 0,
            decreases ARCHIVES - i,
        {
            ptrs.push(Source::Null);
            lens.push(0);
            host.push(Vec::new());
            entries.push(Vec::new());
            i += 1;
        }
        Dirs { ptrs, lens, host, entries, paths: Vec::new() }
    }

    /// The host installs its own array as archive `arc`'s table (what its
    /// directory loading routine does).
    pub fn install(&mut self, arc: usize, table: Vec<Entry>)
        requires
            old(self).wf(),
            arc < ARCHIVES,
        ensures
            final(self).wf(),
            final(self)@ == (DirsView {
                ptrs: old(self)@.ptrs.update(arc as int, Source::Host),
                lens: old(self)@.lens.update(arc as int, table@.len()),
                host: old(self)@.host.update(arc as int, table@),
                ..old(self)@
            }),
    {
        let n = table.len();
        self.host.set(arc, table);
        self.lens.set(arc, n);
        self.ptrs.set(arc, Source::Host);
        proof {
            assert(self@.lens =~= old(self)@.lens.update(arc as int, n as nat));
            assert(self@.host =~= old(self)@.host.update(arc as int, table@));
        }
    }

    /// The table of archive `arc`, as the host sees it.
    pub fn table_of(&self, arc: usize) -> (r: &[Entry])
        requires
            self.wf(),
            arc < ARCHIVES,
        ensures
            r@ == self@.table(arc as int),
    {
        let len = self.lens[arc];
        match self.ptrs[arc] {
            Source::Null => &[],
            Source::Host => &self.host[arc].as_slice()[0..len],
            Source::Shadow => &self.entries[arc].as_slice()[0..len],
        }
    }

    /// All tables, as the host sees them, by archive.
    pub fn entries(&self) -> (r: Vec<&[Entry]>)
        requires
            self.wf(),
        ensures
            r@.len() == ARCHIVES,
            forall|a: int| 0 <= a < ARCHIVES ==> (#[trigger] r@[a])@ == self@.table(a),
    {
        let mut r: Vec<&[Entry]> = Vec::new();
        let mut a: usize = 0;
        while a < ARCHIVES
            invariant
                self.wf(),
                a <= ARCHIVES,
                r@.len() == a,
                forall|b: int| 0 <= b < a ==> (#[trigger] r@[b])@ == self@.table(b),
            decreases ARCHIVES - a,
        {
            r.push(self.table_of(a));
            a += 1;
        }
        r
    }

    /// The replacement path of an override entry (`None` for a native one).
    pub fn path_of(&self, e: &Entry) -> (r: Option<&str>)
        ensures
            match self@.path_of(*e) {
                Some(p) => r is Some && r->0@ == p,
                None => r is None,
            },
    {
        if e.offset == 0 && e.asize == OVERRIDE_MAGIC && (e.unk1 as usize) < self.paths.len() {
            Some(self.paths[e.unk1 as usize].as_str())
        } else {
            None
        }
    }

    /// Number of replacement paths held.
    pub fn path_count(&self) -> (r: usize)
        ensures
            r == self@.paths.len(),
    {
        self.paths.len()
    }

    /// Keeps `path` as the replacement path of the next override entry.
    pub fn push_path(&mut self, path: String)
        requires
            old(self).wf(),
        ensures
            final(self).wf(),
            final(self)@ == (DirsView { paths: old(self)@.paths.push(path@), ..old(self)@ }),
    {
        self.paths.push(path);
        proof {
            assert(self@.paths =~= old(self)@.paths.push(path@));
        }
    }

    /// Overwrites entry `idx` of archive `arc`'s table in place, where the
    /// host reads it; the table keeps its length and location.
    pub fn set_entry(&mut self, arc: usize, idx: usize, e: Entry)
        requires
            old(self).wf(),
            arc < ARCHIVES,
            idx < old(self)@.table(arc as int).len(),
        ensures
            final(self).wf(),
            final(self)@ =~= old(self)@.with_entry(arc as int, idx as int, e),
            final(self)@.table(arc as int) =~= old(self)@.table(arc as int).update(idx as int, e),
    {
        match self.ptrs[arc] {
            Source::Host => {
                self.host[arc][idx] = e;
            },
            Source::Shadow => {
                self.entries[arc][idx] = e;
            },
            Source::Null => {},
        }
    }

    /// The slot `idx` of archive `arc`, for writing. The store's copy is
    /// first brought up to date from what the host's cells refer to, then
    /// grown with unused entries up to `idx`; the cells are pointed at the
    /// copy and its new length, so the host sees every entry from then on.
    pub fn get(&mut self, arc: u8, idx: u16) -> (e: &mut Entry)
        requires
            old(self).wf(),
            arc < ARCHIVES,
        ensures
            final(self).wf(),
            *e == old(self)@.grown(arc as int, idx as int)[idx as int],
            final(self)@ =~= old(self)@.with_slot(arc as int, idx as int, *final(e)),
    {
        let a = arc as usize;
        let i = idx as usize;
        let len = self.lens[a];
        match self.ptrs[a] {
            Source::Host => {
                let mut copy: Vec<Entry> = Vec::new();
                let mut j: usize = 0;
                while j < len
                    invariant
                        self.wf(),
                        a < ARCHIVES,
                        self.ptrs@[a as int] == Source::Host,
                        len == self.lens@[a as int],
                        j <= len,
                        copy@ == self.host@[a as int]@.take(j as int),
                    decreases len - j,
                {
                    copy.push(self.host[a][j]);
                    proof {
                        assert(self.host@[a as int]@.take(j + 1) == self.host@[a as int]@.take(j as int).push(self.host@[a as int]@[j as int]));
                    }
                    j += 1;
                }
                self.entries.set(a, copy);
            },
            Source::Shadow => {
                self.entries[a].truncate(len);
            },
            Source::Null => {},
        }
        let ghost base = self.entries@[a as int]@;
        assert(base == old(self)@.synced(a as int));
        let ghost target = old(self)@.grown(a as int, i as int);
        while self.entries[a].len() <= i
            invariant
                a < ARCHIVES,
                old(self).wf(),
                self.entries@.len() == ARCHIVES,
                self.ptrs == old(self).ptrs,
                self.lens == old(self).lens,
                self.host == old(self).host,
                self.paths == old(self).paths,
                base == old(self)@.synced(a as int),
                target == old(self)@.grown(a as int, i as int),
                base.len() <= self.entries@[a as int]@.len() <= target.len(),
                self.entries@[a as int]@ == target.take(self.entries@[a as int]@.len() as int),
                forall|b: int| 0 <= b < ARCHIVES && b != a ==> #[trigger] self.entries@[b] == old(self).entries@[b],
            decreases i + 1 - self.entries@[a as int]@.len(),
        {
            let d = Entry::default();
            proof {
                lemma_unused_entry(d);
                let k = self.entries@[a as int]@.len() as int;
                assert(target.take(k + 1) == target.take(k).push(d));
            }
            self.entries[a].push(d);
        }
        let n = self.entries[a].len();
        self.ptrs.set(a, Source::Shadow);
        self.lens.set(a, n);
        proof {
            assert(self.entries@[a as int]@ == target);
        }
        &mut self.entries[a][i]
    }
}

/// Whether two stored names are the same bytes.
pub fn same_name(a: &[u8; 12], b: &[u8; 12]) -> (r: bool)
    ensures
        r == (a@ == b@),
{
    let mut i: usize = 0;
    while i < 12
        invariant
            a@.len() == 12,
            b@.len() == 12,
            i <= 12,
            forall|j: int| 0 <= j < i ==> a@[j] == b@[j],
        decreases 12 - i,
    {
        if a[i] != b[i] {
            return false;
        }
        i += 1;
    }
    assert(a@ == b@);
    true
}

impl PartialEq for Entry {
    fn eq(&self, o: &Entry) -> (r: bool) {
        same_name(&self.stored_name, &o.stored_name) && self.unk1 == o.unk1 && self.csize == o.csize
            && self.unk2 == o.unk2 && self.asize == o.asize && self.ts == o.ts && self.offset
            == o.offset
    }
}

impl vstd::std_specs::cmp::PartialEqSpecImpl for Entry {
    open spec fn obeys_eq_spec() -> bool {
        true
    }

    open spec fn eq_spec(&self, o: &Entry) -> bool {
        self.stored_name@ == o.stored_name@ && self.unk1 == o.unk1 && self.csize == o.csize
            && self.unk2 == o.unk2 && self.asize == o.asize && self.ts == o.ts && self.offset
            == o.offset
    }
}

impl Eq for Entry {
}

impl Default for Entry {
    fn default() -> (r: Entry)
        ensures
            r.is_unused(),
    {
        let stored_name: [u8; 12] = [0x2F, 0x5F, 0x5F, 0x5F, 0x5F, 0x5F, 0x5F, 0x5F, 0x2E, 0x5F, 0x5F, 0x5F];
        let r = Entry { stored_name, unk1: 0, csize: 0, unk2: 0, asize: 0, ts: 0, offset: 0 };
        assert(r.stored_name@ == unused_name());
        r
    }
}

} // verus!
