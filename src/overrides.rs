//! The override loader: resolves each entry of a description to a file id
//! and writes an override entry for it into the directory tables.
use vstd::prelude::*;
use vstd::string::StringSliceAdditionalSpecFns;
use vstd::utf8::encode_utf8;
use crate::dir::{same_name, unused_name, view_wf, Dirs, DirsView, Entry, Source, ARCHIVES, OVERRIDE_MAGIC};
use crate::dirjson::{self, DirJson, Key};
use crate::name::{file_name_of, file_name_range, stored, stored_name};

verus! {

/// File id of entry `j` of archive `i`: archive in the high 16 bits.
pub open spec fn file_id(i: int, j: int) -> u32 {
    #[verifier::truncate] ((((i as usize) << 16usize) | (j as usize)) as u32)
}

/// Entry `j` of archive `i` has the stored name `t` (only the first 65536
/// entries of a table have a file id).
pub open spec fn name_at(v: DirsView, t: Seq<u8>, i: int, j: int) -> bool {
    0 <= i < ARCHIVES && 0 <= j < v.table(i).len() && j < 0x1_0000 && v.table(i)[j].stored_name@ == t
}

/// `(i, j)` is the first place, archive by archive, where `t` is found.
pub open spec fn first_match(v: DirsView, t: Seq<u8>, i: int, j: int) -> bool {
    &&& name_at(v, t, i, j)
    &&& forall|i2: int, j2: int| #[trigger] name_at(v, t, i2, j2) ==> i < i2 || (i == i2 && j <= j2)
}

/// File id of the first entry whose stored name is `t`.
pub open spec fn find_name(v: DirsView, t: Seq<u8>) -> Option<u32> {
    if exists|i: int, j: int| first_match(v, t, i, j) {
        let (i, j) = choose|i: int, j: int| first_match(v, t, i, j);
        Some(file_id(i, j))
    } else {
        None
    }
}

/// File id of the first entry named like `name` (as text), if any.
pub open spec fn lookup_name(v: DirsView, name: Seq<char>) -> Option<u32> {
    match stored(encode_utf8(name)) {
        Some(t) => find_name(v, t),
        None => None,
    }
}

proof fn lemma_find_name(v: DirsView, t: Seq<u8>, i: int, j: int)
    requires
        first_match(v, t, i, j),
    ensures
        find_name(v, t) == Some(file_id(i, j)),
{
    let (i2, j2) = choose|i2: int, j2: int| first_match(v, t, i2, j2);
    assert(first_match(v, t, i2, j2));
    assert(name_at(v, t, i, j));
    assert(name_at(v, t, i2, j2));
    assert(i == i2 && j == j2);
}

/// The file id of the first entry, archive by archive, whose stored name is
/// the stored form of `name`.
pub fn lookup_file(dirs: &Dirs, name: &str) -> (r: Option<u32>)
    requires
        dirs.wf(),
    ensures
        r == lookup_name(dirs@, name@),
{
    let t = match Entry::to_stored_name(name) {
        Some(t) => t,
        None => return None,
    };
    let tables = dirs.entries();
    let mut i: usize = 0;
    while i < ARCHIVES
        invariant
            dirs.wf(),
            stored(encode_utf8(name@)) == Some(t@),
            tables@.len() == ARCHIVES,
            forall|a: int| 0 <= a < ARCHIVES ==> (#[trigger] tables@[a])@ == dirs@.table(a),
            i <= ARCHIVES,
            forall|i2: int, j2: int| #[trigger] name_at(dirs@, t@, i2, j2) ==> i2 >= i,
        decreases ARCHIVES - i,
    {
        let arc = tables[i];
        let mut j: usize = 0;
        while j < arc.len() && j < 0x1_0000
            invariant
                dirs.wf(),
                tables@.len() == ARCHIVES,
                forall|a: int| 0 <= a < ARCHIVES ==> (#[trigger] tables@[a])@ == dirs@.table(a),
                i < ARCHIVES,
                stored(encode_utf8(name@)) == Some(t@),
                arc@ == dirs@.table(i as int),
                j <= arc@.len(),
                j <= 0x1_0000,
                forall|i2: int, j2: int| #[trigger] name_at(dirs@, t@, i2, j2) ==> i2 > i || (i2 == i && j2 >= j),
            decreases arc@.len() - j,
        {
            if same_name(&arc[j].stored_name, &t) {
                proof {
                    assert(name_at(dirs@, t@, i as int, j as int));
                    assert(first_match(dirs@, t@, i as int, j as int));
                    lemma_find_name(dirs@, t@, i as int, j as int);
                }
                let id = #[verifier::truncate] (((i << 16usize) | j) as u32);
                assert(id == file_id(i as int, j as int));
                return Some(id);
            }
            j += 1;
        }
        i += 1;
    }
    proof {
        assert(!exists|i2: int, j2: int| first_match(dirs@, t@, i2, j2));
    }
    None
}

/// Why one entry of a description was not applied.
#[derive(Clone, PartialEq, Eq, Debug)]
pub enum LoadError {
    /// It names an asset that no table holds.
    UnknownName,
    /// Its file id's archive part is 64 or more.
    InvalidArchive,
    /// An earlier override already took its slot; this holds that
    /// override's path.
    AlreadyUsed(String),
    /// No further path can be numbered by a 32-bit index.
    TooManyPaths,
}

/// What applying one entry came to.
pub enum Outcome {
    Applied,
    UnknownName,
    InvalidArchive,
    AlreadyUsed(Seq<char>),
    TooManyPaths,
}

pub open spec fn outcome_of(r: Result<(), LoadError>) -> Outcome {
    match r {
        Ok(()) => Outcome::Applied,
        Err(LoadError::UnknownName) => Outcome::UnknownName,
        Err(LoadError::InvalidArchive) => Outcome::InvalidArchive,
        Err(LoadError::AlreadyUsed(p)) => Outcome::AlreadyUsed(p@),
        Err(LoadError::TooManyPaths) => Outcome::TooManyPaths,
    }
}

/// Flag set in the compressed size of an override entry, so that the entry
/// has a size no native entry of the same archive offset has.
pub const OVERRIDE_SIZE_FLAG: usize = 0x8000_0000;

/// Stored name of an override entry: that of its display name, else that of
/// its path's file name; the unused name when the path has no file name or
/// the name cannot be stored.
pub open spec fn override_name(e: dirjson::Entry) -> Seq<u8> {
    let text = match e.name {
        Some(n) => Some(encode_utf8(n@)),
        None => file_name_of(encode_utf8(e.path@)),
    };
    match text {
        Some(b) => match stored(b) {
            Some(t) => t,
            None => unused_name(),
        },
        None => unused_name(),
    }
}

/// `x` is the override entry for file `id` whose path has index `idx`.
pub open spec fn is_override_for(x: Entry, id: u32, idx: nat, e: dirjson::Entry) -> bool {
    &&& x.stored_name@ == override_name(e)
    &&& x.offset == 0
    &&& x.csize == ((id as usize) | OVERRIDE_SIZE_FLAG)
    &&& x.unk1 == idx
    &&& x.unk2 == #[verifier::truncate] ((encode_utf8(e.path@).len() as usize) as u32)
    &&& x.asize == OVERRIDE_MAGIC
    &&& x.ts == 0
}

pub open spec fn override_entry(id: u32, idx: nat, e: dirjson::Entry) -> Entry {
    choose|x: Entry| is_override_for(x, id, idx, e)
}

proof fn lemma_override_entry(x: Entry, id: u32, idx: nat, e: dirjson::Entry)
    requires
        is_override_for(x, id, idx, e),
    ensures
        x == override_entry(id, idx, e),
{
    let y = override_entry(id, idx, e);
    assert(is_override_for(y, id, idx, e));
    assert(x.stored_name =~= y.stored_name);
}

/// The override entry for a path numbered below 2^32 exists and carries the
/// fields `is_override_for` names.
pub proof fn lemma_override_entry_fields(id: u32, idx: nat, e: dirjson::Entry)
    requires
        idx < 0x1_0000_0000,
    ensures
        is_override_for(override_entry(id, idx, e), id, idx, e),
{
    let t = override_name(e);
    assert(t.len() == 12);
    let n: [u8; 12] = [t[0], t[1], t[2], t[3], t[4], t[5], t[6], t[7], t[8], t[9], t[10], t[11]];
    assert(n@ =~= t);
    let x = Entry {
        stored_name: n,
        offset: 0,
        csize: (id as usize) | OVERRIDE_SIZE_FLAG,
        unk1: idx as u32,
        unk2: #[verifier::truncate] ((encode_utf8(e.path@).len() as usize) as u32),
        asize: OVERRIDE_MAGIC,
        ts: 0,
    };
    assert(is_override_for(x, id, idx, e));
}

/// Archive part of a file id.
pub open spec fn archive_of(id: u32) -> int {
    (id >> 16u32) as int
}

/// Index part of a file id.
pub open spec fn index_of(id: u32) -> int {
    #[verifier::truncate] (id as u16) as int
}

/// The state and outcome of applying entry `(k, e)` to state `v`.
///
/// The key is resolved to a file id (a name through the tables); an id whose
/// archive part is 64 or more is rejected; else the slot is fetched through
/// the store (which grows and republishes the table), and, unless an
/// override already holds it, an override entry referring to `e.path` is
/// written there.
pub open spec fn entry_step(v: DirsView, k: Key, e: dirjson::Entry) -> (DirsView, Outcome) {
    let id = match k {
        Key::Id(id) => Some(id),
        Key::Name(n) => lookup_name(v, n@),
    };
    match id {
        None => (v, Outcome::UnknownName),
        Some(id) => {
            let a = archive_of(id);
            let f = index_of(id);
            if a >= ARCHIVES {
                (v, Outcome::InvalidArchive)
            } else {
                let cur = v.grown(a, f)[f];
                if cur.is_override() {
                    let prev = match v.path_of(cur) {
                        Some(p) => p,
                        None => Seq::empty(),
                    };
                    (v.with_slot(a, f, cur), Outcome::AlreadyUsed(prev))
                } else if v.paths.len() >= u32::MAX {
                    (v.with_slot(a, f, cur), Outcome::TooManyPaths)
                } else {
                    let x = override_entry(id, v.paths.len(), e);
                    let w = v.with_slot(a, f, x);
                    (DirsView { paths: w.paths.push(e.path@), ..w }, Outcome::Applied)
                }
            }
        },
    }
}

/// An override by file id of a slot that holds no override yet is applied:
/// whatever native or unused entry was there, the slot then holds the
/// override entry, at offset 0 with the flagged size, whose path is the
/// override's path; and the table reaches at least that slot.
pub proof fn lemma_override_applied(v: DirsView, id: u32, e: dirjson::Entry)
    requires
        view_wf(v),
        archive_of(id) < ARCHIVES,
        v.paths.len() < u32::MAX,
        !v.grown(archive_of(id), index_of(id))[index_of(id)].is_override(),
    ensures
        ({
            let (w, o) = entry_step(v, Key::Id(id), e);
            let a = archive_of(id);
            let f = index_of(id);
            &&& o == Outcome::Applied
            &&& view_wf(w)
            &&& w.table(a).len() > f
            &&& w.table(a)[f] == override_entry(id, v.paths.len(), e)
            &&& is_override_for(w.table(a)[f], id, v.paths.len(), e)
            &&& w.table(a)[f].offset == 0
            &&& w.table(a)[f].csize == ((id as usize) | OVERRIDE_SIZE_FLAG)
            &&& w.path_of(w.table(a)[f]) == Some(e.path@)
        }),
{
    let a = archive_of(id);
    let f = index_of(id);
    let idx = v.paths.len();
    lemma_override_entry_fields(id, idx, e);
    let x = override_entry(id, idx, e);
    let w0 = v.with_slot(a, f, x);
    let (w, o) = entry_step(v, Key::Id(id), e);
    assert(w == DirsView { paths: w0.paths.push(e.path@), ..w0 });
    assert(w.table(a) =~= v.grown(a, f).update(f, x));
}

/// A second override of the same file id in one load is rejected with the
/// first one's path, and leaves the tables as the first one left them: the
/// slot keeps serving the first override's path.
pub proof fn lemma_second_override_rejected(v: DirsView, id: u32, e1: dirjson::Entry, e2: dirjson::Entry)
    requires
        view_wf(v),
        archive_of(id) < ARCHIVES,
        v.paths.len() < u32::MAX,
        !v.grown(archive_of(id), index_of(id))[index_of(id)].is_override(),
    ensures
        ({
            let (w1, o1) = entry_step(v, Key::Id(id), e1);
            let (w2, o2) = entry_step(w1, Key::Id(id), e2);
            let a = archive_of(id);
            let f = index_of(id);
            &&& o1 == Outcome::Applied
            &&& o2 == Outcome::AlreadyUsed(e1.path@)
            &&& w2 == w1
            &&& w2.path_of(w2.table(a)[f]) == Some(e1.path@)
        }),
{
    lemma_override_applied(v, id, e1);
    let a = archive_of(id);
    let f = index_of(id);
    let (w1, o1) = entry_step(v, Key::Id(id), e1);
    assert(w1.ptrs[a] == Source::Shadow);
    assert(w1.synced(a) == w1.table(a));
    assert(w1.table(a) =~= w1.shadow[a]);
    assert(w1.grown(a, f) == w1.table(a));
    let cur = w1.grown(a, f)[f];
    assert(w1.table(a).update(f, cur) =~= w1.table(a));
    assert(w1.with_slot(a, f, cur) =~= w1);
}

/// Applies one entry of a description: resolves its key and writes an
/// override entry for it, or says why not.
pub fn parse_dir_entry(dirs: &mut Dirs, k: &Key, v: &dirjson::Entry) -> (r: Result<(), LoadError>)
    requires
        old(dirs).wf(),
    ensures
        final(dirs).wf(),
        final(dirs)@ =~= entry_step(old(dirs)@, *k, *v).0,
        outcome_of(r) == entry_step(old(dirs)@, *k, *v).1,
{
    let id = match k {
        Key::Id(id) => *id,
        Key::Name(n) => match lookup_file(dirs, n.as_str()) {
            Some(id) => id,
            None => return Err(LoadError::UnknownName),
        },
    };
    let arc = id >> 16;
    let file = #[verifier::truncate] (id as u16);
    if arc >= 64 {
        return Err(LoadError::InvalidArchive);
    }
    let count = dirs.path_count();
    let named = match &v.name {
        Some(n) => Entry::to_stored_name(n.as_str()),
        None => {
            let p = v.path.as_str().as_bytes();
            match file_name_range(p) {
                Some((a, b)) => stored_name(&p[a..b]),
                None => None,
            }
        },
    };
    let stored_name = match named {
        Some(t) => t,
        None => Entry::default().stored_name,
    };
    let path_len = #[verifier::truncate] (v.path.as_str().len() as u32);
    let e = dirs.get(arc as u8, file);
    if e.offset == 0 && e.asize == OVERRIDE_MAGIC {
        let cur = *e;
        let prev = match dirs.path_of(&cur) {
            Some(p) => p.to_owned(),
            None => String::new(),
        };
        return Err(LoadError::AlreadyUsed(prev));
    }
    if count >= u32::MAX as usize {
        return Err(LoadError::TooManyPaths);
    }
    let x = Entry {
        stored_name,
        offset: 0,
        csize: (id as usize) | OVERRIDE_SIZE_FLAG,
        unk1: count as u32,
        unk2: path_len,
        asize: OVERRIDE_MAGIC,
        ts: 0,
    };
    proof {
        lemma_override_entry(x, id, count as nat, *v);
    }
    *e = x;
    dirs.push_path(v.path.clone());
    Ok(())
}

/// State and outcomes after applying `items` in order.
pub open spec fn load_entries(v: DirsView, items: Seq<(Key, dirjson::Entry)>) -> (DirsView, Seq<Outcome>)
    decreases items.len(),
{
    if items.len() == 0 {
        (v, Seq::empty())
    } else {
        let (w, outs) = load_entries(v, items.drop_last());
        let (w2, o) = entry_step(w, items.last().0, items.last().1);
        (w2, outs.push(o))
    }
}

/// State after applying the description files `files` in order.
pub open spec fn load_files(v: DirsView, files: Seq<DirJson>) -> DirsView
    decreases files.len(),
{
    if files.len() == 0 {
        v
    } else {
        load_entries(load_files(v, files.drop_last()), files.last().entries@).0
    }
}

/// Applies every entry of one description file, in order, and gives each
/// entry's result (a rejected entry is skipped and the rest go on).
pub fn parse_dir_file(dirs: &mut Dirs, file: &DirJson) -> (r: Vec<Result<(), LoadError>>)
    requires
        old(dirs).wf(),
    ensures
        final(dirs).wf(),
        final(dirs)@ == load_entries(old(dirs)@, file.entries@).0,
        r@.map_values(|x: Result<(), LoadError>| outcome_of(x)) =~= load_entries(old(dirs)@, file.entries@).1,
{
    let mut r: Vec<Result<(), LoadError>> = Vec::new();
    let mut i: usize = 0;
    while i < file.entries.len()
        invariant
            dirs.wf(),
            i <= file.entries@.len(),
            dirs@ == load_entries(old(dirs)@, file.entries@.take(i as int)).0,
            r@.map_values(|x: Result<(), LoadError>| outcome_of(x)) =~= load_entries(old(dirs)@, file.entries@.take(i as int)).1,
        decreases file.entries@.len() - i,
    {
        let item = &file.entries[i];
        let res = parse_dir_entry(dirs, &item.0, &item.1);
        proof {
            assert(file.entries@.take(i + 1).drop_last() == file.entries@.take(i as int));
        }
        r.push(res);
        i += 1;
    }
    proof {
        assert(file.entries@.take(i as int) == file.entries@);
    }
    r
}

/// Applies the description files in the order given; for each file, each
/// entry's result.
pub fn load_dir_files(dirs: &mut Dirs, files: &Vec<DirJson>) -> (r: Vec<Vec<Result<(), LoadError>>>)
    requires
        old(dirs).wf(),
    ensures
        final(dirs).wf(),
        final(dirs)@ == load_files(old(dirs)@, files@),
        r@.len() == files@.len(),
        forall|f: int| 0 <= f < files@.len() ==> (#[trigger] r@[f])@.map_values(|x: Result<(), LoadError>| outcome_of(x))
            =~= load_entries(load_files(old(dirs)@, files@.take(f)), files@[f].entries@).1,
{
    let mut r: Vec<Vec<Result<(), LoadError>>> = Vec::new();
    let mut f: usize = 0;
    while f < files.len()
        invariant
            dirs.wf(),
            f <= files@.len(),
            dirs@ == load_files(old(dirs)@, files@.take(f as int)),
            r@.len() == f,
            forall|g: int| 0 <= g < f ==> (#[trigger] r@[g])@.map_values(|x: Result<(), LoadError>| outcome_of(x))
                =~= load_entries(load_files(old(dirs)@, files@.take(g)), files@[g].entries@).1,
        decreases files@.len() - f,
    {
        let res = parse_dir_file(dirs, &files[f]);
        proof {
            assert(files@.take(f + 1).drop_last() == files@.take(f as int));
        }
        r.push(res);
        f += 1;
    }
    proof {
        assert(files@.take(f as int) == files@);
    }
    r
}

} // verus!
