use rcloneflix::config::RcloneListItem;
use rcloneflix::scan::{
    clean_title, find_year, hash_remote_path, parse_media_filename, scan_library_files,
    simple_regex_match,
};

#[test]
fn movie_filename_parses_title_and_year() {
    let parsed = parse_media_filename(b"The.Dark.Knight.2008.mkv");
    assert_eq!(parsed.title, b"The Dark Knight".to_vec());
    assert_eq!(parsed.year, Some(2008));
    assert_eq!(parsed.season, None);
    assert_eq!(parsed.episode, None);
    assert!(!parsed.is_episode);
}

#[test]
fn episode_filename_parses_season_and_episode() {
    let parsed = parse_media_filename(b"Breaking.Bad.S03E07.mkv");
    assert_eq!(parsed.title, b"Breaking Bad".to_vec());
    assert_eq!(parsed.season, Some(3));
    assert_eq!(parsed.episode, Some(7));
    assert_eq!(parsed.year, None);
    assert!(parsed.is_episode);
}

#[test]
fn episode_filename_with_numeric_mark_parses_too() {
    let parsed = parse_media_filename(b"The Wire - 1x01 - The Target.mkv");
    assert_eq!(parsed.title, b"The Wire".to_vec());
    assert_eq!(parsed.season, Some(1));
    assert_eq!(parsed.episode, Some(1));
    assert!(parsed.is_episode);
}

#[test]
fn filename_without_extension_has_an_empty_stem() {
    let parsed = parse_media_filename(b"noext");
    assert_eq!(parsed.title, Vec::<u8>::new());
    assert!(!parsed.is_episode);
    assert_eq!(parsed.year, None);
}

#[test]
fn year_needs_a_plausible_range_and_clean_flanks() {
    assert!(find_year(b"x.1899.y").is_none());
    assert!(find_year(b"x.2100.y").is_none());
    let m = find_year(b"x.2008.y").unwrap();
    assert_eq!(m.start, 2);
    assert_eq!(m.year, 2008);
    // A digit touching the four makes them no year.
    assert!(find_year(b"12008").is_none());
    assert!(find_year(b"20081").is_none());
}

#[test]
fn the_first_plausible_year_wins() {
    let m = find_year(b"a.1999.and.2008").unwrap();
    assert_eq!(m.start, 2);
    assert_eq!(m.year, 1999);
}

#[test]
fn season_episode_match_reports_start_and_groups() {
    let m = simple_regex_match(b"Show.S01E07.Name", b"[Ss](#)[Ee](#)").unwrap();
    assert_eq!(m.start, 5);
    assert_eq!(m.group1, b"01".to_vec());
    assert_eq!(m.group2, b"07".to_vec());
}

#[test]
fn season_episode_scan_stops_five_bytes_before_the_end() {
    // The scan never starts within the last five bytes, so a mark flush at
    // the end of a short stem goes unseen.
    assert!(simple_regex_match(b"S1E1", b"[Ss]").is_none());
    assert!(simple_regex_match(b"aS1E1", b"[Ss]").is_none());
    assert!(simple_regex_match(b"S01E07", b"[Ss]").is_some());
}

#[test]
fn numeric_mark_needs_one_or_two_digits_each_side() {
    let m = simple_regex_match(b"Show 1x01 rest", b"nxn").unwrap();
    assert_eq!(m.start, 5);
    assert_eq!(m.group1, b"1".to_vec());
    assert_eq!(m.group2, b"01".to_vec());
    // Three digits on either side never match there, but a shorter suffix
    // of the run can.
    let m = simple_regex_match(b"123x45 tail", b"nxn").unwrap();
    assert_eq!(m.start, 1);
    assert_eq!(m.group1, b"23".to_vec());
}

#[test]
fn titles_are_cleaned_and_capitalised() {
    assert_eq!(clean_title(b"the.dark_knight-returns"), b"The Dark Knight Returns".to_vec());
    assert_eq!(clean_title(b"  spaced   words "), b"Spaced Words".to_vec());
    assert_eq!(clean_title(b""), Vec::<u8>::new());
}

#[test]
fn remote_path_hash_is_stable_hex() {
    assert_eq!(hash_remote_path(b"abc"), b"000000000b885c8b".to_vec());
    assert_eq!(
        hash_remote_path(b"gdrive:/Movies/file.mkv"),
        b"05834eb054b8e76d".to_vec()
    );
}

fn item(name: &[u8], path: &[u8], is_dir: bool, size: i64, mime: Option<&[u8]>) -> RcloneListItem {
    RcloneListItem {
        name: name.to_vec(),
        path: path.to_vec(),
        is_dir,
        size,
        mime_type: mime.map(|m| m.to_vec()),
    }
}

#[test]
fn scan_reports_new_and_removed_media_files() {
    let items = vec![
        item(b"film.mkv", b"Movies/film.mkv", false, 700, Some(b"video/x-matroska")),
        item(b"notes.txt", b"Movies/notes.txt", false, 10, None),
        item(b"Movies", b"Movies", true, 0, None),
        item(b"song.FLAC", b"Music/song.FLAC", false, 9, None),
        item(b"known.mp4", b"Movies/known.mp4", false, 5, None),
    ];
    let known = vec![b"root/Movies/known.mp4".to_vec(), b"root/Movies/gone.mkv".to_vec()];
    let r = scan_library_files(b"root/", &items, b"lib-1".to_vec(), &known);
    assert_eq!(r.library_id, b"lib-1".to_vec());
    assert!(r.errors.is_empty());
    // Three media files found: film.mkv, song.FLAC (case-insensitive
    // extension), known.mp4.
    assert_eq!(r.total_found, 3);
    assert_eq!(r.new_files.len(), 2);
    assert_eq!(r.new_files[0].remote_path, b"root/Movies/film.mkv".to_vec());
    assert_eq!(r.new_files[0].filename, b"film.mkv".to_vec());
    assert_eq!(r.new_files[0].size, 700);
    assert!(!r.new_files[0].is_dir);
    assert_eq!(r.new_files[0].mime_type, Some(b"video/x-matroska".to_vec()));
    assert_eq!(r.new_files[1].remote_path, b"root/Music/song.FLAC".to_vec());
    // The known path no longer listed is removed; the still-present one is
    // not.
    assert_eq!(r.removed_paths, vec![b"root/Movies/gone.mkv".to_vec()]);
}

#[test]
fn scan_counts_duplicate_paths_once() {
    let items = vec![
        item(b"a.mkv", b"a.mkv", false, 1, None),
        item(b"a.mkv", b"a.mkv", false, 1, None),
    ];
    let known: Vec<Vec<u8>> = vec![];
    let r = scan_library_files(b"root", &items, b"lib".to_vec(), &known);
    assert_eq!(r.total_found, 1);
}
