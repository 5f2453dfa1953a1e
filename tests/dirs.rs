use lb_dir::dir::{Dirs, Entry};

fn native(name: &[u8; 12], offset: usize, csize: usize) -> Entry {
    Entry {
        stored_name: *name,
        unk1: 0,
        csize,
        unk2: 0,
        asize: csize * 2,
        ts: 0,
        offset,
    }
}

#[test]
fn new_store_has_empty_tables() {
    let dirs = Dirs::new();
    let tables = dirs.entries();
    assert_eq!(tables.len(), 64);
    assert!(tables.iter().all(|t| t.is_empty()));
    assert_eq!(dirs.path_count(), 0);
}

#[test]
fn installed_table_is_seen() {
    let mut dirs = Dirs::new();
    dirs.install(3, vec![native(b"A       .BIN", 10, 5), native(b"B       .BIN", 15, 6)]);
    assert_eq!(dirs.table_of(3).len(), 2);
    assert_eq!(dirs.entries()[3][1].offset, 15);
    assert!(dirs.table_of(2).is_empty());
}

#[test]
fn growth_pads_with_unused_entries() {
    let mut dirs = Dirs::new();
    dirs.install(1, vec![native(b"A       .BIN", 10, 5), native(b"B       .BIN", 15, 6)]);
    let written = native(b"C       .BIN", 0, 9);
    *dirs.get(1, 5) = written;
    let t = dirs.table_of(1);
    assert_eq!(t.len(), 6);
    assert_eq!(t[0], native(b"A       .BIN", 10, 5));
    assert_eq!(t[1], native(b"B       .BIN", 15, 6));
    for e in &t[2..5] {
        assert_eq!(*e, Entry::default());
    }
    assert_eq!(t[5], written);
}

#[test]
fn get_inside_table_returns_current_entry() {
    let mut dirs = Dirs::new();
    dirs.install(0, vec![native(b"A       .BIN", 10, 5)]);
    assert_eq!(*dirs.get(0, 0), native(b"A       .BIN", 10, 5));
    assert_eq!(dirs.table_of(0).len(), 1);
}

#[test]
fn get_on_null_table_grows_from_empty() {
    let mut dirs = Dirs::new();
    assert_eq!(*dirs.get(7, 2), Entry::default());
    assert_eq!(dirs.table_of(7).len(), 3);
}

#[test]
fn appended_entries_survive_further_writes() {
    let mut dirs = Dirs::new();
    dirs.install(2, vec![native(b"A       .BIN", 10, 5)]);
    *dirs.get(2, 3) = native(b"X       .BIN", 0, 1);
    *dirs.get(2, 1) = native(b"Y       .BIN", 0, 2);
    let t = dirs.table_of(2);
    assert_eq!(t.len(), 4);
    assert_eq!(t[1], native(b"Y       .BIN", 0, 2));
    assert_eq!(t[3], native(b"X       .BIN", 0, 1));
}

#[test]
fn host_reload_replaces_the_copy() {
    let mut dirs = Dirs::new();
    dirs.install(2, vec![native(b"A       .BIN", 10, 5)]);
    *dirs.get(2, 3) = native(b"X       .BIN", 0, 1);
    dirs.install(2, vec![native(b"B       .BIN", 20, 5), native(b"C       .BIN", 25, 5)]);
    assert_eq!(dirs.table_of(2).len(), 2);
    assert_eq!(*dirs.get(2, 1), native(b"C       .BIN", 25, 5));
    assert_eq!(dirs.table_of(2).len(), 2);
}

#[test]
fn set_entry_writes_in_place() {
    let mut dirs = Dirs::new();
    dirs.install(4, vec![native(b"A       .BIN", 10, 5), native(b"B       .BIN", 15, 6)]);
    dirs.set_entry(4, 1, native(b"Z       .BIN", 99, 1));
    assert_eq!(dirs.table_of(4).len(), 2);
    assert_eq!(dirs.table_of(4)[1], native(b"Z       .BIN", 99, 1));
    *dirs.get(4, 3) = native(b"Q       .BIN", 0, 3);
    dirs.set_entry(4, 0, native(b"Y       .BIN", 1, 1));
    assert_eq!(dirs.table_of(4)[0], native(b"Y       .BIN", 1, 1));
    assert_eq!(dirs.table_of(4).len(), 4);
}
