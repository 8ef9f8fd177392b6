use asc_raster::discovery::is_asc_file_name;

#[test]
fn raster_files_end_in_asc() {
    assert!(is_asc_file_name(b"tile.asc"));
    assert!(is_asc_file_name(b"LITTO3D_FRA_0925_6224_MNT_20150529_LAMB93_RGF93_IGN69.asc"));
    assert!(is_asc_file_name(b"a.asc"));
    assert!(is_asc_file_name(b"a.b.asc"));
    assert!(is_asc_file_name(b"..asc"));
}

#[test]
fn other_files_are_left_alone() {
    assert!(!is_asc_file_name(b""));
    assert!(!is_asc_file_name(b"asc"));
    assert!(!is_asc_file_name(b".asc"));
    assert!(!is_asc_file_name(b"tile.ASC"));
    assert!(!is_asc_file_name(b"tile.asc.gz"));
    assert!(!is_asc_file_name(b"tile.asc "));
    assert!(!is_asc_file_name(b"tileasc"));
    assert!(!is_asc_file_name(b"tile.png"));
    assert!(!is_asc_file_name(b"tile.xasc"));
}

#[test]
fn the_rule_is_that_of_path_extensions() {
    let names = ["tile.asc", ".asc", "a.b.asc", "..asc", "asc", "tile.asc.gz", "x.ASC", "a.asc"];
    for name in names {
        let by_path = std::path::Path::new(name).extension().map_or(false, |e| e == "asc");
        assert_eq!(is_asc_file_name(name.as_bytes()), by_path, "{}", name);
    }
}
