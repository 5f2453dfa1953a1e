use lb_dir::dir::Entry;
use lb_dir::name::{canonical_name, stored_name};

fn entry_named(stored: &[u8; 12]) -> Entry {
    let mut e = Entry::default();
    e.stored_name = *stored;
    e
}

#[test]
fn name_lowers_and_trims_base() {
    assert_eq!(entry_named(b"FOO     .BIN").name(), "foo.bin");
    assert_eq!(entry_named(b"T_SHOP00._SN").name(), "t_shop00._sn");
}

#[test]
fn name_keeps_extension_padding() {
    assert_eq!(entry_named(b"ABC     .DA ").name(), "abc.da ");
}

#[test]
fn name_without_dot_is_only_lowered() {
    assert_eq!(entry_named(b"ABCDEFGHIJKL").name(), "abcdefghijkl");
}

#[test]
fn name_of_unused_entry() {
    assert_eq!(Entry::default().name(), "/_______.___");
    assert_eq!(&Entry::default().stored_name, b"/_______.___");
}

#[test]
fn name_replaces_invalid_utf8() {
    let e = entry_named(&[0xFF, b'A', b' ', b' ', b' ', b' ', b' ', b' ', b'.', b'B', b'I', b'N']);
    assert_eq!(e.name(), "\u{FFFD}a.bin");
}

#[test]
fn name_bytes_matches_name() {
    assert_eq!(entry_named(b"SCENA   .DAT").name_bytes(), b"scena.dat".to_vec());
    assert_eq!(canonical_name(b"MON     .X  "), b"mon.x  ".to_vec());
}

#[test]
fn to_stored_name_pads_and_uppercases() {
    assert_eq!(Entry::to_stored_name("foo.bin"), Some(*b"FOO     .BIN"));
    assert_eq!(Entry::to_stored_name("a.b"), Some(*b"A       .B  "));
    assert_eq!(Entry::to_stored_name("readme"), Some(*b"README  .   "));
    assert_eq!(Entry::to_stored_name(""), Some(*b"        .   "));
}

#[test]
fn to_stored_name_drops_directories() {
    assert_eq!(Entry::to_stored_name("dir/sub\\a.txt"), Some(*b"A       .TXT"));
    assert_eq!(Entry::to_stored_name("x\\y/12345678.abc"), Some(*b"12345678.ABC"));
}

#[test]
fn to_stored_name_rejects_long_parts() {
    assert_eq!(Entry::to_stored_name("toolongname.txt"), None);
    assert_eq!(Entry::to_stored_name("a.long"), None);
    assert_eq!(Entry::to_stored_name("123456789"), None);
}

#[test]
fn to_stored_name_splits_at_first_dot() {
    assert_eq!(Entry::to_stored_name("a.b.c"), Some(*b"A       .B.C"));
}

#[test]
fn stored_name_on_bytes() {
    assert_eq!(stored_name(b"Mon.x"), Some(*b"MON     .X  "));
}

#[test]
fn canonical_name_is_idempotent() {
    for stored in [b"FOO     .BIN", b"ABC     .DA ", b"T_SHOP00._SN", b"        .TXT", b"ABCDEFGH.T.X"] {
        let once = entry_named(stored).name();
        let again = Entry::to_stored_name(&once).expect("storable");
        assert_eq!(entry_named(&again).name(), once);
    }
}

#[test]
fn storing_the_name_gives_the_stored_name_back() {
    for stored in [b"FOO     .BIN", b"T_SHOP00._SN", b"A B     .C  ", b"        .   ", b"12345678.9_ "] {
        assert_eq!(Entry::to_stored_name(&entry_named(stored).name()), Some(*stored));
    }
}

#[test]
fn to_stored_name_uses_unicode_upper_case() {
    assert_eq!(Entry::to_stored_name("\u{131}\u{131}\u{131}\u{131}\u{131}.bin"), Some(*b"IIIII   .BIN"));
    let mut want = *b"        .BIN";
    want[0] = 0xC3;
    want[1] = 0x89;
    assert_eq!(Entry::to_stored_name("\u{e9}.bin"), Some(want));
}

#[test]
fn name_uses_unicode_lower_case() {
    let mut stored = *b"        .BIN";
    stored[0] = 0xC3;
    stored[1] = 0x89;
    assert_eq!(entry_named(&stored).name(), "\u{e9}.bin");
}
