use httm::config::{
    Config, DeletedMode, ExecMode, InteractiveMode, ListSnapsOfType, PrintMode, RestoreMode,
    RestoreSnapGuard,
};
use httm::data::disk::{DiskView, Probe};
use httm::data::paths::{PathData, PathMetadata};
use httm::display_other::generic_maps::{bytes_less, count_chars, pad_to, PrintAsMap};
use httm::filesystem::mounts::{DatasetCollection, DatasetMetadata, FilesystemType, LinkType, PathMap};
use httm::interactive::restore::{
    new_file_path_beside, refuse_same_file, restored_file_path, InteractiveRestore,
};
use httm::interactive::select::{parse_consent, parse_selection, InteractiveSelect};
use httm::library::common::{cmp_path, get_common_path};
use httm::library::input::{has_separator, is_separator, split_input, trim, Separator};
use httm::library::results::{HttmError, IoErrorKind};
use httm::library::utility::{
    get_date, get_date_format, get_delimiter, get_fs_type_from_hidden_dir, make_tmp_path,
    map_io_err, mark_utc, DateFormat,
};
use httm::lookup::versions_map::VersionsMap;
use httm::{
    btrfs_snapper_additional_sub_directory_bytes, btrfs_snapper_hidden_directory_bytes,
    zfs_hidden_directory_bytes, zfs_snapshot_directory_bytes, zfs_snapshot_marker_bytes,
};

fn u(text: &str) -> Vec<u8> {
    text.as_bytes().to_vec()
}

fn text(bytes: Vec<u8>) -> String {
    String::from_utf8(bytes).unwrap()
}

fn plain_config(print_mode: PrintMode, exec_mode: ExecMode) -> Config {
    let mut map_of_datasets = PathMap::new();
    map_of_datasets.insert(
        u("/tank"),
        DatasetMetadata {
            source: u("tank"),
            fs_type: FilesystemType::Zfs,
            link_type: LinkType::Local,
        },
    );
    let mut map_of_snaps = PathMap::new();
    map_of_snaps
        .insert(u("/tank"), vec![u("/tank/.zfs/snapshot/s1"), u("/tank/.zfs/snapshot/s2")]);
    Config {
        opt_recursive: false,
        opt_no_filter: false,
        opt_no_traverse: false,
        opt_omit_ditto: false,
        opt_alt_replicated: false,
        opt_no_live_vers: false,
        opt_last_snap: None,
        uniqueness: ListSnapsOfType::All,
        deleted_mode: DeletedMode::Disabled,
        print_mode,
        exec_mode,
        dataset_collection: DatasetCollection {
            map_of_datasets,
            map_of_snaps,
            opt_map_of_aliases: None,
            opt_map_of_alts: None,
            opt_common_snap_dir: None,
            filter_dirs: PathMap::new(),
        },
        pwd: u("/home/u"),
        opt_requested_dir: None,
        requested_utc_offset: 0,
    }
}

fn restore_config(mode: RestoreMode) -> Config {
    plain_config(
        PrintMode::FormattedDefault,
        ExecMode::Interactive(InteractiveMode::Restore(mode)),
    )
}

#[test]
fn names_of_hidden_directories() {
    assert_eq!(zfs_hidden_directory_bytes(), u(".zfs"));
    assert_eq!(zfs_snapshot_directory_bytes(), u(".zfs/snapshot"));
    assert_eq!(zfs_snapshot_marker_bytes(), u("/.zfs/snapshot/"));
    assert_eq!(btrfs_snapper_hidden_directory_bytes(), u(".snapshots"));
    assert_eq!(btrfs_snapper_additional_sub_directory_bytes(), u("snapshot"));
}

#[test]
fn delimiter_is_zero_only_in_raw_zero_mode() {
    assert_eq!(get_delimiter(&plain_config(PrintMode::RawZero, ExecMode::Display)), '\0');
    assert_eq!(get_delimiter(&plain_config(PrintMode::RawNewline, ExecMode::Display)), '\n');
    assert_eq!(get_delimiter(&plain_config(PrintMode::FormattedDefault, ExecMode::Display)), '\n');
    assert_eq!(get_delimiter(&plain_config(PrintMode::FormattedNotPretty, ExecMode::Display)), '\n');
}

#[test]
fn tmp_path_appends_suffix() {
    assert_eq!(make_tmp_path(&u("/tank/a.txt")), u("/tank/a.txt.tmp"));
    assert_eq!(make_tmp_path(&u("")), u(".tmp"));
}

#[test]
fn io_errors_keep_kind_and_path() {
    assert_eq!(
        map_io_err(IoErrorKind::PermissionDenied, &u("/tank/a")),
        HttmError::IoError(IoErrorKind::PermissionDenied, u("/tank/a"))
    );
    assert_eq!(
        map_io_err(IoErrorKind::NotFound, &u("/tank/b")),
        HttmError::IoError(IoErrorKind::NotFound, u("/tank/b"))
    );
    assert_eq!(
        map_io_err(IoErrorKind::Other, &u("/tank/c")),
        HttmError::IoError(IoErrorKind::Other, u("/tank/c"))
    );
}

#[test]
fn common_path_of_two() {
    assert_eq!(cmp_path(&u("/tank/a/b"), &u("/tank/a/c")), Some(u("/tank/a")));
    assert_eq!(cmp_path(&u("/tank/a"), &u("/tank/a/b")), Some(u("/tank/a")));
    assert_eq!(cmp_path(&u("/tank/a/b"), &u("/tank/a")), Some(u("/tank/a")));
    assert_eq!(cmp_path(&u("/tank/ab"), &u("/tank/ac")), Some(u("/tank")));
    assert_eq!(cmp_path(&u("a/b"), &u("a/c")), Some(u("a")));
}

#[test]
fn nothing_in_common_but_the_root_is_nothing_in_common() {
    assert_eq!(cmp_path(&u("/tank/a"), &u("/pool/b")), None);
    assert_eq!(cmp_path(&u("a/b"), &u("c/d")), None);
    assert_eq!(cmp_path(&u("/a"), &u("a")), None);
    assert_eq!(cmp_path(&u("/"), &u("/")), None);
}

#[test]
fn common_path_of_many() {
    assert_eq!(
        get_common_path(&vec![u("/tank/a/b/c"), u("/tank/a/b/d"), u("/tank/a/e")]),
        Some(u("/tank/a"))
    );
    assert_eq!(get_common_path(&vec![u("/tank/a")]), Some(u("/tank/a")));
    assert_eq!(get_common_path(&vec![]), None);
    assert_eq!(get_common_path(&vec![u("/tank/a"), u("/pool/a"), u("/tank/a")]), None);
    assert_eq!(get_common_path(&vec![u("/")]), Some(u("/")));
}

#[test]
fn fs_type_is_told_by_the_hidden_directory() {
    let mut disk = DiskView::new();
    disk.stats.insert(u("/tank/.zfs/snapshot"), Probe::Found(None));
    disk.stats.insert(u("/home/.snapshots"), Probe::Found(Some(PathMetadata::new(0, 1))));
    disk.stats.insert(u("/both/.zfs/snapshot"), Probe::Found(None));
    disk.stats.insert(u("/both/.snapshots"), Probe::Found(None));
    disk.stats.insert(u("/locked/.zfs/snapshot"), Probe::PermissionDenied);
    assert_eq!(get_fs_type_from_hidden_dir(&u("/tank"), &disk), Some(FilesystemType::Zfs));
    assert_eq!(get_fs_type_from_hidden_dir(&u("/home"), &disk), Some(FilesystemType::BtrfsSnapper));
    assert_eq!(get_fs_type_from_hidden_dir(&u("/both"), &disk), Some(FilesystemType::Zfs));
    assert_eq!(get_fs_type_from_hidden_dir(&u("/locked"), &disk), None);
    assert_eq!(get_fs_type_from_hidden_dir(&u("/ext4"), &disk), None);
}

#[test]
fn date_formats() {
    assert_eq!(
        get_date_format(&DateFormat::Display),
        "[weekday repr:short] [month repr:short] [day] [hour]:[minute]:[second] [year]"
    );
    assert_eq!(
        get_date_format(&DateFormat::Timestamp),
        "[year]-[month]-[day]-[hour]:[minute]:[second]"
    );
}

#[test]
fn dates_in_utc_are_marked() {
    assert_eq!(
        get_date(0, 0, DateFormat::Timestamp).map(text),
        Some("1970-01-01-00:00:00_UTC".to_string())
    );
    assert_eq!(
        get_date(0, 0, DateFormat::Display).map(text),
        Some("Thu Jan 01 00:00:00 1970 UTC".to_string())
    );
    assert_eq!(
        get_date(0, 1_546_300_800_000_000_000, DateFormat::Timestamp).map(text),
        Some("2019-01-01-00:00:00_UTC".to_string())
    );
    assert_eq!(
        get_date(0, 1_546_300_800_999_999_999, DateFormat::Display).map(text),
        Some("Tue Jan 01 00:00:00 2019 UTC".to_string())
    );
}

#[test]
fn dates_at_an_offset_are_shifted_and_not_marked() {
    assert_eq!(
        get_date(3600, 0, DateFormat::Timestamp).map(text),
        Some("1970-01-01-01:00:00".to_string())
    );
    assert_eq!(
        get_date(-18000, 1_546_300_800_000_000_000, DateFormat::Display).map(text),
        Some("Mon Dec 31 19:00:00 2018".to_string())
    );
    assert_eq!(
        get_date(0, -1_000_000_000, DateFormat::Timestamp).map(text),
        Some("1969-12-31-23:59:59_UTC".to_string())
    );
}

#[test]
fn dates_out_of_range_cannot_be_written() {
    assert_eq!(get_date(0, i128::MAX, DateFormat::Timestamp), None);
    assert_eq!(get_date(0, i128::MIN, DateFormat::Display), None);
    assert_eq!(get_date(1_000_000, 0, DateFormat::Timestamp), None);
}

#[test]
fn utc_mark_depends_on_format() {
    assert_eq!(mark_utc(u("x"), 0, DateFormat::Timestamp), u("x_UTC"));
    assert_eq!(mark_utc(u("x"), 0, DateFormat::Display), u("x UTC"));
    assert_eq!(mark_utc(u("x"), 60, DateFormat::Display), u("x"));
    assert_eq!(mark_utc(u("x"), -1, DateFormat::Timestamp), u("x"));
}

fn versions_map() -> VersionsMap {
    let config = plain_config(PrintMode::FormattedDefault, ExecMode::Display);
    let mut disk = DiskView::new();
    disk.stats.insert(u("/tank/.zfs/snapshot/s1/a"), Probe::Found(Some(PathMetadata::new(5, 100))));
    disk.stats.insert(u("/tank/.zfs/snapshot/s2/a"), Probe::Found(Some(PathMetadata::new(5, 200))));
    disk.stats.insert(u("/tank/.zfs/snapshot/s2/b-c"), Probe::Found(Some(PathMetadata::new(1, 1))));
    let paths = vec![
        PathData::new(&u("/tank/b-c"), Some(PathMetadata::new(1, 2))),
        PathData::new(&u("/tank/a"), Some(PathMetadata::new(5, 300))),
        PathData::new(&u("/tank/none"), Some(PathMetadata::new(5, 300))),
    ];
    VersionsMap::new(&config, &paths, &disk).unwrap()
}

#[test]
fn print_map_pads_keys_to_the_longest() {
    let map = PrintAsMap::from_versions_map(&versions_map());
    assert_eq!(map.get_map_padding(), "/tank/none".len() + 2);
    assert_eq!(PrintAsMap::new().get_map_padding(), 2);
}

#[test]
fn print_map_pretty_format() {
    let map = PrintAsMap::from_versions_map(&versions_map());
    let config = plain_config(PrintMode::FormattedDefault, ExecMode::Display);
    assert_eq!(
        text(map.format(&config)),
        "\"/tank/a\"    : \"/tank/.zfs/snapshot/s1/a\"\n\
         \x20            : \"/tank/.zfs/snapshot/s2/a\"\n\
         \"/tank/b-c\"  : \"/tank/.zfs/snapshot/s2/b-c\"\n"
    );
}

#[test]
fn print_map_plain_format() {
    let map = PrintAsMap::from_versions_map(&versions_map());
    let config = plain_config(PrintMode::FormattedNotPretty, ExecMode::Display);
    assert_eq!(
        text(map.format(&config)),
        "/tank/a:\t/tank/.zfs/snapshot/s1/a\t/tank/.zfs/snapshot/s2/a\n\
         /tank/b-c:\t/tank/.zfs/snapshot/s2/b-c\n\
         /tank/none:\n"
    );
}

#[test]
fn print_map_leaves_out_empty_keys_when_last_snap_is_asked_for() {
    let mut map = PrintAsMap::new();
    map.insert(u("/b"), vec![]);
    map.insert(u("/a"), vec![u("/s/a")]);
    let mut config = plain_config(PrintMode::FormattedNotPretty, ExecMode::Display);
    assert_eq!(text(map.format(&config)), "/a:\t/s/a\n/b:\n");
    config.opt_last_snap = Some(httm::config::LastSnapMode::Any);
    assert_eq!(text(map.format(&config)), "/a:\t/s/a\n");
    assert_eq!(text(PrintAsMap::new().format(&config)), "");
}

#[test]
fn print_map_keys_are_ordered_byte_by_byte_and_unique() {
    let mut map = PrintAsMap::new();
    map.insert(u("/a/b"), vec![u("1")]);
    map.insert(u("/a-b"), vec![u("2")]);
    map.insert(u("/a"), vec![u("3")]);
    map.insert(u("/a-b"), vec![u("4")]);
    let config = plain_config(PrintMode::FormattedNotPretty, ExecMode::Display);
    assert_eq!(text(map.format(&config)), "/a:\t3\n/a-b:\t4\n/a/b:\t1\n");
    assert!(bytes_less(&u("/a-b"), &u("/a/b")));
    assert!(bytes_less(&u("/a"), &u("/a-b")));
    assert!(!bytes_less(&u("/a"), &u("/a")));
    assert!(!bytes_less(&u("b"), &u("a")));
}

#[test]
fn padding_counts_characters() {
    // two characters in five bytes
    let mut accented = "é€".as_bytes().to_vec();
    assert_eq!(count_chars(&accented), 2);
    pad_to(&mut accented, 5);
    assert_eq!(text(accented), "é€   ");
    assert_eq!(count_chars(&u("")), 0);
    assert_eq!(count_chars(&u("abc")), 3);
    let mut map = PrintAsMap::new();
    map.insert("/ü".as_bytes().to_vec(), vec![u("/s/1"), u("/s/2")]);
    let config = plain_config(PrintMode::FormattedDefault, ExecMode::Display);
    assert_eq!(map.get_map_padding(), 5);
    assert_eq!(text(map.format(&config)), format!("{:<5} : \"/s/1\"\n{:<5} : \"/s/2\"\n", "\"/ü\"", ""));
    assert_eq!(text(map.format(&config)), "\"/ü\"  : \"/s/1\"\n      : \"/s/2\"\n");
}

#[test]
fn padding_never_cuts() {
    let mut short = u("ab");
    pad_to(&mut short, 5);
    assert_eq!(short, u("ab   "));
    let mut long = u("abcdef");
    pad_to(&mut long, 5);
    assert_eq!(long, u("abcdef"));
}

#[test]
fn restored_file_is_named_after_version_and_date() {
    assert_eq!(
        restored_file_path(&u("/home/u"), &u("notes.txt"), &u("2019-01-01-00:00:00_UTC")),
        u("/home/u/notes.txt.httm_restored.2019-01-01-00:00:00_UTC")
    );
    assert_eq!(
        restored_file_path(&u("/home/u"), &u(".bashrc"), &u("T")),
        u("/home/u/bashrc.httm_restored.T")
    );
    assert_eq!(restored_file_path(&u("/"), &u("..x"), &u("T")), u("/.x.httm_restored.T"));
}

fn nobody() -> InteractiveRestore {
    InteractiveRestore {
        select_result: InteractiveSelect { snap_path_strings: vec![], opt_live_version: None },
    }
}

#[test]
fn copy_goes_beside_live_files() {
    let config = restore_config(RestoreMode::CopyOnly);
    let snap = PathData::new(
        &u("/tank/.zfs/snapshot/s1/.profile"),
        Some(PathMetadata::new(9, 1_546_300_800_000_000_000)),
    );
    assert_eq!(
        nobody().build_new_file_path(&config, &snap, &DiskView::new()).map(text),
        Ok("/home/u/profile.httm_restored.2019-01-01-00:00:00_UTC".to_string())
    );
    let mut config = restore_config(RestoreMode::CopyAndPreserve);
    config.requested_utc_offset = 7200;
    assert_eq!(
        nobody().build_new_file_path(&config, &snap, &DiskView::new()).map(text),
        Ok("/home/u/profile.httm_restored.2019-01-01-02:00:00".to_string())
    );
}

#[test]
fn copy_is_not_written_over_an_earlier_restore() {
    let config = restore_config(RestoreMode::CopyOnly);
    let snap = PathData::new(&u("/tank/.zfs/snapshot/s1/a"), Some(PathMetadata::new(9, 0)));
    let mut disk = DiskView::new();
    disk.stats.insert(
        u("/home/u/a.httm_restored.1970-01-01-00:00:00_UTC"),
        Probe::Found(Some(PathMetadata::new(9, 0))),
    );
    assert_eq!(
        nobody().build_new_file_path(&config, &snap, &disk),
        Err(HttmError::BadInput(u("/home/u/a.httm_restored.1970-01-01-00:00:00_UTC")))
    );
}

#[test]
fn version_that_is_not_on_disk_cannot_be_restored() {
    let config = restore_config(RestoreMode::CopyOnly);
    let gone = PathData::new(&u("/tank/.zfs/snapshot/s1/a"), None);
    assert_eq!(
        nobody().build_new_file_path(&config, &gone, &DiskView::new()),
        Err(HttmError::IoError(IoErrorKind::NotFound, u("/tank/.zfs/snapshot/s1/a")))
    );
    let nameless = PathData::new(&u("/"), Some(PathMetadata::new(9, 0)));
    assert_eq!(
        nobody().build_new_file_path(&config, &nameless, &DiskView::new()),
        Err(HttmError::BadInput(u("/")))
    );
    let undated = PathData::new(&u("/s/a"), Some(PathMetadata::new(9, i128::MAX)));
    assert_eq!(
        nobody().build_new_file_path(&config, &undated, &DiskView::new()),
        Err(HttmError::BadInput(u("/s/a")))
    );
    assert_eq!(
        new_file_path_beside(&config, &undated, Some(u("T")), &DiskView::new()),
        Ok(u("/home/u/a.httm_restored.T"))
    );
}

#[test]
fn overwrite_goes_to_the_live_path() {
    let config = restore_config(RestoreMode::Overwrite(RestoreSnapGuard::Guarded));
    let snap = PathData::new(&u("/tank/.zfs/snapshot/s1/etc/smb.conf"), Some(PathMetadata::new(9, 0)));
    assert_eq!(
        nobody().build_new_file_path(&config, &snap, &DiskView::new()),
        Ok(u("/tank/etc/smb.conf"))
    );
    let known = InteractiveRestore {
        select_result: InteractiveSelect {
            snap_path_strings: vec![],
            opt_live_version: Some(u("/etc/samba/smb.conf")),
        },
    };
    assert_eq!(
        known.build_new_file_path(&config, &snap, &DiskView::new()),
        Ok(u("/etc/samba/smb.conf"))
    );
    assert_eq!(known.select_result.opt_live_version(&snap), Ok(u("/etc/samba/smb.conf")));
    let elsewhere = PathData::new(&u("/backup/1/etc/smb.conf"), Some(PathMetadata::new(9, 0)));
    assert_eq!(
        nobody().build_new_file_path(&config, &elsewhere, &DiskView::new()),
        Err(HttmError::BadInput(u("/backup/1/etc/smb.conf")))
    );
}

#[test]
fn no_file_is_restored_onto_itself() {
    let config = restore_config(RestoreMode::Overwrite(RestoreSnapGuard::NotGuarded));
    let live = PathData::new(&u("/etc/smb.conf"), Some(PathMetadata::new(9, 0)));
    let known = InteractiveRestore {
        select_result: InteractiveSelect {
            snap_path_strings: vec![],
            opt_live_version: Some(u("/etc/smb.conf")),
        },
    };
    assert_eq!(
        known.build_new_file_path(&config, &live, &DiskView::new()),
        Err(HttmError::BadInput(u("/etc/smb.conf")))
    );
    assert_eq!(refuse_same_file(Ok(u("/a")), &u("/b")), Ok(u("/a")));
    assert_eq!(refuse_same_file(Ok(u("/a")), &u("/a")), Err(HttmError::BadInput(u("/a"))));
    assert_eq!(refuse_same_file(Err(HttmError::NoVersions), &u("/a")), Err(HttmError::NoVersions));
}

#[test]
fn attributes_are_preserved_on_request_and_on_overwrite() {
    let preserve = |mode| InteractiveRestore::should_preserve_attributes(&restore_config(mode));
    assert!(!preserve(RestoreMode::CopyOnly));
    assert!(preserve(RestoreMode::CopyAndPreserve));
    assert!(preserve(RestoreMode::Overwrite(RestoreSnapGuard::Guarded)));
    assert!(preserve(RestoreMode::Overwrite(RestoreSnapGuard::NotGuarded)));
    assert!(!InteractiveRestore::should_preserve_attributes(&plain_config(
        PrintMode::RawZero,
        ExecMode::Interactive(InteractiveMode::Browse)
    )));
    assert!(!InteractiveRestore::should_preserve_attributes(&plain_config(
        PrintMode::RawZero,
        ExecMode::Display
    )));
}

#[test]
fn selection_is_what_stands_between_the_quotes() {
    assert_eq!(
        parse_selection(&u("Tue Jan 01 2019  5 bytes  \"/tank/.zfs/snapshot/s1/a\"  ")),
        Some(u("/tank/.zfs/snapshot/s1/a"))
    );
    assert_eq!(parse_selection(&u("\"a\"b\"")), Some(u("a\"b")));
    assert_eq!(parse_selection(&u("\"\"")), Some(u("")));
    assert_eq!(parse_selection(&u("no quotes")), None);
    assert_eq!(parse_selection(&u("one \" quote")), None);
}

#[test]
fn consent_is_yes_or_no_in_any_case() {
    for yes in ["YES", "yes", "Yes", "Y", "y"] {
        assert_eq!(parse_consent(&u(yes)), Some(true));
    }
    for no in ["NO", "no", "nO", "N", "n"] {
        assert_eq!(parse_consent(&u(no)), Some(false));
    }
    for other in ["", "maybe", "yes ", "ye", "yess", "0"] {
        assert_eq!(parse_consent(&u(other)), None);
    }
}

#[test]
fn last_snap_selection_lists_all_versions_left() {
    let map = versions_map();
    assert_eq!(
        InteractiveSelect::last_snap(&map),
        vec![
            u("/tank/.zfs/snapshot/s1/a"),
            u("/tank/.zfs/snapshot/s2/a"),
            u("/tank/.zfs/snapshot/s2/b-c"),
        ]
    );
}

#[test]
fn input_is_split_on_lines_first() {
    assert_eq!(split_input(&u("/a b\n/c\n")), vec![u("/a b"), u("/c")]);
    assert_eq!(split_input(&u("/a\0/b\0\0/c")), vec![u("/a"), u("/b"), u("/c")]);
    assert_eq!(split_input(&u("\"/a\"\n\"/b\"")), vec![u("\"/a\""), u("\"/b\"")]);
}

#[test]
fn input_is_split_on_quotes_next() {
    assert_eq!(split_input(&u("\"/a b\" \"/c\"")), vec![u("/a b"), u("/c")]);
    assert_eq!(split_input(&u("  /x  \" /y \"")), vec![u("/x"), u("/y")]);
    assert_eq!(split_input(&u("\"\u{a0}/z\u{b}\"\u{2003}")), vec![u("/z")]);
}

#[test]
fn input_is_split_on_blanks_last() {
    assert_eq!(split_input(&u("/a  /b\t/c")), vec![u("/a"), u("/b"), u("/c")]);
    assert_eq!(split_input(&u("/only")), vec![u("/only")]);
    let nothing: Vec<Vec<u8>> = vec![];
    assert_eq!(split_input(&u("")), nothing);
    assert_eq!(split_input(&u("   ")), nothing);
}

#[test]
fn separators_and_trimming() {
    assert!(is_separator(Separator::Lines, b'\n'));
    assert!(is_separator(Separator::Lines, 0));
    assert!(!is_separator(Separator::Lines, b' '));
    assert!(is_separator(Separator::Quotes, b'"'));
    assert!(is_separator(Separator::Whitespace, b'\r'));
    assert!(!is_separator(Separator::Whitespace, b'x'));
    assert!(has_separator(&u("a b"), Separator::Whitespace));
    assert!(!has_separator(&u("a b"), Separator::Lines));
    assert_eq!(trim(&u(" \t a b \r\n")), u("a b"));
    // as the standard library trims: every character of white space
    for blank in [
        "\u{b}", "\u{c}", "\u{85}", "\u{a0}", "\u{1680}", "\u{2000}", "\u{2005}", "\u{200a}",
        "\u{2028}", "\u{2029}", "\u{202f}", "\u{205f}", "\u{3000}",
    ] {
        let padded = format!("{blank} {blank}a{blank}b{blank}\t{blank}");
        assert_eq!(text(trim(&u(&padded))), padded.trim());
        assert_eq!(text(trim(&u(&padded))), format!("a{blank}b"));
    }
    // but no more than that
    for other in ["\u{200b}", "\u{feff}", "\u{e2}", "\u{1}", "é"] {
        let kept = format!("{other}a{other}");
        assert_eq!(text(trim(&u(&kept))), kept.trim());
        assert_eq!(text(trim(&u(&kept))), kept);
    }
    assert_eq!(trim(&u("   ")), u(""));
    assert_eq!(trim(&u("ab")), u("ab"));
}
