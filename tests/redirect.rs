use lb_dir::dir::{Dirs, Entry};
use lb_dir::dirjson::{self, Key};
use lb_dir::overrides::parse_dir_entry;
use lb_dir::redirect::{
    archive_dir, archive_number, encode_override, find_entry, get_redirect_file, is_raw_extension,
    match_read, redirect_candidates, Candidates, Pick,
};

fn native(name: &[u8; 12], offset: usize, csize: usize) -> Entry {
    Entry { stored_name: *name, unk1: 0, csize, unk2: 0, asize: csize, ts: 0, offset }
}

fn candidates(explicit: bool, spaced: bool) -> Candidates {
    Candidates {
        explicit: if explicit { Some("x/y.bin".to_string()) } else { None },
        dir: "ED6_DT01".to_string(),
        implicit: "y.bin".to_string(),
        spaced: if spaced { Some("Y       .BIN".to_string()) } else { None },
    }
}

#[test]
fn archive_numbers_from_file_names() {
    assert_eq!(archive_number("ED6_DT1A.dat"), Some(0x1A));
    assert_eq!(archive_number("ed6_dt1a.DAT"), Some(0x1A));
    assert_eq!(archive_number("ED6_DT00.dat"), Some(0));
    assert_eq!(archive_number("ED6_DTFF.dat"), Some(0xFF));
}

#[test]
fn other_file_names_are_not_archives() {
    assert_eq!(archive_number("ED6_DT5.dat"), None);
    assert_eq!(archive_number("ED6_DT0GG.dat"), None);
    assert_eq!(archive_number("ED6_DTGG.dat"), None);
    assert_eq!(archive_number("ED6_DT05.dir"), None);
    assert_eq!(archive_number("ED6_DT05.dat.bak"), None);
    assert_eq!(archive_number(""), None);
}

#[test]
fn archive_dirs_are_two_hex_digits() {
    assert_eq!(archive_dir(5), "ED6_DT05");
    assert_eq!(archive_dir(0x3F), "ED6_DT3F");
    assert_eq!(archive_dir(0x123), "ED6_DT123");
}

#[test]
fn find_entry_by_offset_and_size() {
    let mut dirs = Dirs::new();
    dirs.install(2, vec![native(b"A       .BIN", 10, 5), native(b"B       .BIN", 15, 6), native(b"C       .BIN", 15, 6)]);
    let (id, e) = find_entry(&dirs, 2, 15, 6).expect("match");
    assert_eq!(id, 0x0002_0001);
    assert_eq!(&e.stored_name, b"B       .BIN");
    assert_eq!(find_entry(&dirs, 2, 15, 7), None);
    assert_eq!(find_entry(&dirs, 64, 15, 6), None);
}

#[test]
fn explicit_path_wins_when_it_exists() {
    let c = candidates(true, true);
    assert_eq!(get_redirect_file(&c, true, true, true), Some(Pick::Explicit));
    assert_eq!(get_redirect_file(&c, false, true, true), Some(Pick::Implicit));
    assert_eq!(get_redirect_file(&c, false, false, true), Some(Pick::Spaced));
    assert_eq!(get_redirect_file(&c, false, false, false), None);
}

#[test]
fn absent_candidates_are_not_picked() {
    let c = candidates(false, false);
    assert_eq!(get_redirect_file(&c, true, false, true), None);
    assert_eq!(get_redirect_file(&c, true, true, true), Some(Pick::Implicit));
}

#[test]
fn raw_extensions() {
    assert!(is_raw_extension("_ds"));
    assert!(is_raw_extension("WAV"));
    assert!(is_raw_extension("_DS"));
    assert!(!is_raw_extension("bin"));
    assert!(!is_raw_extension("wave"));
    assert!(!is_raw_extension(""));
}

#[test]
fn raw_files_are_served_as_they_are() {
    let data = vec![1u8, 2, 3];
    assert_eq!(encode_override(Some("wav"), data.clone()), data);
    assert_eq!(encode_override(Some("bin"), data.clone()), vec![2, 0, 1, 7, 0, 0x20, 3, 1, 2, 3, 0]);
    assert_eq!(encode_override(None, vec![]), vec![2, 0, 0]);
}

#[test]
fn native_entry_served_from_loose_file() {
    let mut dirs = Dirs::new();
    let mut table = vec![native(b"A       .BIN", 0, 1000); 3];
    table.push(native(b"SCENA   .BIN", 1000, 200));
    dirs.install(5, table);
    let (id, e) = match_read(&dirs, "ED6_DT05.dat", 1000, 200).expect("archive read");
    assert_eq!(id, 0x0005_0003);
    let c = redirect_candidates(&dirs, id, &e, false);
    assert_eq!(c.explicit, None);
    assert_eq!(c.dir, "ED6_DT05");
    assert_eq!(c.implicit, "scena.bin");
    assert_eq!(c.spaced, None);
    assert_eq!(get_redirect_file(&c, false, true, false), Some(Pick::Implicit));
    let out = encode_override(Some("bin"), vec![9, 8, 7, 6]);
    assert_eq!(&out[..2], &[0x02, 0x00]);
    assert_eq!(out, vec![2, 0, 1, 8, 0, 0x20, 4, 9, 8, 7, 6, 0]);
}

#[test]
fn spaced_name_is_probed_when_asked() {
    let e = native(b"SCENA   .BIN", 1000, 200);
    let dirs = Dirs::new();
    let c = redirect_candidates(&dirs, 0x0005_0003, &e, true);
    assert_eq!(c.spaced, Some("SCENA   .BIN".to_string()));
}

#[test]
fn reads_of_other_files_are_not_matched() {
    let mut dirs = Dirs::new();
    dirs.install(5, vec![native(b"SCENA   .BIN", 1000, 200)]);
    assert_eq!(match_read(&dirs, "config.ini", 1000, 200), None);
    assert_eq!(match_read(&dirs, "ED6_DT06.dat", 1000, 200), None);
    assert_eq!(match_read(&dirs, "ED6_DT40.dat", 1000, 200), None);
}

#[test]
fn override_entry_is_served_from_its_path() {
    let mut dirs = Dirs::new();
    dirs.install(1, vec![native(b"A       .BIN", 0, 10), native(b"B       .BIN", 10, 10), native(b"C       .BIN", 20, 10)]);
    let key = Key::parse("0x00010002");
    assert_eq!(parse_dir_entry(&mut dirs, &key, &dirjson::Entry::from_path("foo/bar.bin")), Ok(()));
    let (id, e) = match_read(&dirs, "ED6_DT01.dat", 0, 0x8001_0002).expect("override read");
    assert_eq!(id, 0x0001_0002);
    let c = redirect_candidates(&dirs, id, &e, false);
    assert_eq!(c.explicit, Some("foo/bar.bin".to_string()));
    assert_eq!(c.implicit, "bar.bin");
    assert_eq!(get_redirect_file(&c, true, true, false), Some(Pick::Explicit));
}

#[test]
fn second_override_keeps_first_path_served() {
    let mut dirs = Dirs::new();
    let key = Key::Id(0x0001_0002);
    assert_eq!(parse_dir_entry(&mut dirs, &key, &dirjson::Entry::from_path("first.bin")), Ok(()));
    assert!(parse_dir_entry(&mut dirs, &key, &dirjson::Entry::from_path("second.bin")).is_err());
    let (id, e) = match_read(&dirs, "ED6_DT01.dat", 0, 0x8001_0002).expect("override read");
    let c = redirect_candidates(&dirs, id, &e, false);
    assert_eq!(c.explicit, Some("first.bin".to_string()));
}

#[test]
fn find_entry_stops_at_slots_with_file_ids() {
    let mut dirs = Dirs::new();
    let mut table = vec![native(b"A       .BIN", 1, 1); 0x1_0000];
    table.push(native(b"B       .BIN", 5, 5));
    dirs.install(3, table);
    assert_eq!(find_entry(&dirs, 3, 5, 5), None);
    assert_eq!(lb_dir::overrides::lookup_file(&dirs, "b.bin"), None);
}
