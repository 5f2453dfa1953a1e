use lb_dir::dir::{Dirs, Entry, OVERRIDE_MAGIC};
use lb_dir::dirjson::{self, DirJson, Key, StringOrStruct};
use lb_dir::overrides::{load_dir_files, lookup_file, parse_dir_entry, parse_dir_file, LoadError};

fn native(name: &[u8; 12], offset: usize, csize: usize) -> Entry {
    Entry { stored_name: *name, unk1: 0, csize, unk2: 0, asize: csize, ts: 0, offset }
}

fn path_entry(p: &str) -> dirjson::Entry {
    dirjson::Entry::from_path(p)
}

fn name_key(s: &str) -> Key {
    Key::Name(s.to_string())
}

#[test]
fn key_parse_forms() {
    assert_eq!(Key::parse("0x00010002"), Key::Id(0x0001_0002));
    assert_eq!(Key::parse("0xffffffff"), Key::Id(0xFFFF_FFFF));
    assert_eq!(Key::parse("0xAbCd0123"), Key::Id(0xABCD_0123));
    assert_eq!(Key::parse("foo.bin"), name_key("foo.bin"));
    assert_eq!(Key::parse("0X00010002"), name_key("0X00010002"));
}

#[test]
fn key_parse_other_texts_are_names() {
    assert_eq!(Key::parse("0x"), name_key("0x"));
    assert_eq!(Key::parse("0x1"), name_key("0x1"));
    assert_eq!(Key::parse("0xZZ"), name_key("0xZZ"));
    assert_eq!(Key::parse("0x+1234567"), name_key("0x+1234567"));
    assert_eq!(Key::parse("0x000100020"), name_key("0x000100020"));
    assert_eq!(Key::parse("0x0001000G"), name_key("0x0001000G"));
}

#[test]
fn parse_hex_reads_like_from_str_radix() {
    assert_eq!(dirjson::parse_hex(b"1A2b"), Some(0x1A2B));
    assert_eq!(dirjson::parse_hex(b"000000000001"), Some(1));
    assert_eq!(dirjson::parse_hex(b"-1"), None);
}

#[test]
fn string_or_struct_entries() {
    let bare = StringOrStruct::Str("foo/bar.bin".to_string()).into_entry();
    assert_eq!(bare, dirjson::Entry { name: None, path: "foo/bar.bin".to_string() });
    let full = dirjson::Entry { name: Some("x.bin".to_string()), path: "y".to_string() };
    assert_eq!(StringOrStruct::Struct(full.clone()).into_entry(), full);
}

#[test]
fn override_by_id_writes_entry() {
    let mut dirs = Dirs::new();
    assert_eq!(parse_dir_entry(&mut dirs, &Key::Id(0x0001_0002), &path_entry("foo/bar.bin")), Ok(()));
    let t = dirs.table_of(1);
    assert_eq!(t.len(), 3);
    let e = t[2];
    assert_eq!(&e.stored_name, b"BAR     .BIN");
    assert_eq!(e.offset, 0);
    assert_eq!(e.asize, OVERRIDE_MAGIC);
    assert_eq!(e.csize, 0x8001_0002);
    assert_eq!(e.unk1, 0);
    assert_eq!(e.unk2, 11);
    assert_eq!(dirs.path_of(&e), Some("foo/bar.bin"));
}

#[test]
fn override_display_name_wins() {
    let mut dirs = Dirs::new();
    let v = dirjson::Entry { name: Some("t_item.dt".to_string()), path: "mods/item.bin".to_string() };
    assert_eq!(parse_dir_entry(&mut dirs, &Key::Id(0x0000_0000), &v), Ok(()));
    assert_eq!(&dirs.table_of(0)[0].stored_name, b"T_ITEM  .DT ");
}

#[test]
fn override_with_unstorable_name_gets_unused_name() {
    let mut dirs = Dirs::new();
    let v = path_entry("much_too_long_name.bin");
    assert_eq!(parse_dir_entry(&mut dirs, &Key::Id(0x0002_0000), &v), Ok(()));
    assert_eq!(&dirs.table_of(2)[0].stored_name, b"/_______.___");
}

#[test]
fn override_name_comes_from_the_file_name() {
    for (path, want) in [
        ("foo/", b"FOO     .   "),
        ("foo/.", b"FOO     .   "),
        ("dir\\sub/x.bin/", b"X       .BIN"),
        ("./a.b", b"A       .B  "),
        ("a/..", b"/_______.___"),
        ("..", b"/_______.___"),
        ("/", b"/_______.___"),
        ("", b"/_______.___"),
    ] {
        let mut dirs = Dirs::new();
        assert_eq!(parse_dir_entry(&mut dirs, &Key::Id(0x0000_0000), &path_entry(path)), Ok(()));
        assert_eq!(&dirs.table_of(0)[0].stored_name, want, "path {path:?}");
    }
}

#[test]
fn override_by_name_finds_entry() {
    let mut dirs = Dirs::new();
    dirs.install(3, vec![native(b"A       .BIN", 10, 5), native(b"FOO     .BIN", 15, 6)]);
    assert_eq!(lookup_file(&dirs, "foo.bin"), Some(0x0003_0001));
    assert_eq!(lookup_file(&dirs, "Data/FOO.BIN"), Some(0x0003_0001));
    assert_eq!(
        parse_dir_entry(&mut dirs, &Key::Name("foo.bin".to_string()), &path_entry("new/foo.bin")),
        Ok(())
    );
    let e = dirs.table_of(3)[1];
    assert_eq!(dirs.path_of(&e), Some("new/foo.bin"));
    assert_eq!(dirs.table_of(3)[0], native(b"A       .BIN", 10, 5));
}

#[test]
fn lookup_takes_first_archive_then_first_index() {
    let mut dirs = Dirs::new();
    dirs.install(4, vec![native(b"X       .BIN", 1, 1), native(b"X       .BIN", 2, 1)]);
    dirs.install(9, vec![native(b"X       .BIN", 3, 1)]);
    assert_eq!(lookup_file(&dirs, "x.bin"), Some(0x0004_0000));
    assert_eq!(lookup_file(&dirs, "y.bin"), None);
    assert_eq!(lookup_file(&dirs, "toolongname.bin"), None);
}

#[test]
fn override_of_unknown_name_is_rejected() {
    let mut dirs = Dirs::new();
    assert_eq!(
        parse_dir_entry(&mut dirs, &Key::Name("nope.bin".to_string()), &path_entry("a")),
        Err(LoadError::UnknownName)
    );
}

#[test]
fn override_of_archive_64_is_rejected() {
    let mut dirs = Dirs::new();
    assert_eq!(
        parse_dir_entry(&mut dirs, &Key::Id(0x0040_0000), &path_entry("a")),
        Err(LoadError::InvalidArchive)
    );
    assert_eq!(dirs.path_count(), 0);
}

#[test]
fn second_override_of_same_id_is_rejected() {
    let mut dirs = Dirs::new();
    let file = DirJson {
        entries: vec![
            (Key::Id(0x0001_0002), path_entry("first.bin")),
            (Key::Id(0x0001_0002), path_entry("second.bin")),
            (Key::Id(0x0001_0003), path_entry("third.bin")),
        ],
    };
    let results = parse_dir_file(&mut dirs, &file);
    assert_eq!(
        results,
        vec![Ok(()), Err(LoadError::AlreadyUsed("first.bin".to_string())), Ok(())]
    );
    let t = dirs.table_of(1);
    assert_eq!(dirs.path_of(&t[2]), Some("first.bin"));
    assert_eq!(dirs.path_of(&t[3]), Some("third.bin"));
}

#[test]
fn files_are_applied_in_order() {
    let mut dirs = Dirs::new();
    let files = vec![
        DirJson { entries: vec![(Key::Id(0x0000_0001), path_entry("a.bin"))] },
        DirJson {
            entries: vec![
                (Key::Id(0x0000_0001), path_entry("b.bin")),
                (Key::Name("a.bin".to_string()), path_entry("c.bin")),
            ],
        },
    ];
    let results = load_dir_files(&mut dirs, &files);
    assert_eq!(results.len(), 2);
    assert_eq!(results[0], vec![Ok(())]);
    assert_eq!(
        results[1],
        vec![Err(LoadError::AlreadyUsed("a.bin".to_string())), Err(LoadError::AlreadyUsed("a.bin".to_string()))]
    );
    assert_eq!(dirs.path_count(), 1);
}
