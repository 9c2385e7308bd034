use yargle::commands::{file_time_text, score_date};
use yargle::commands::{
    collapse_song_scores, cover_art_result, downloaded_art_url, itunes_result, packed_mogg_state,
    CoverImage, PlayKey,
};
use yargle::commands::{
    artist_and_name, artist_name_album, chars_lt, collision_name, difficulty_name,
    duplicate_candidates, duplicate_groups, field_value, folder_facts, instrument_flags,
    instrument_name, mogg_state, norm_title, normalize_name, organize_folders, package_facts,
    rename_preview, sanitize_filename, sorted_order, tally_decrypts, to_win_long_path,
    DecryptStatus, DtaFacts, MoggState, NameEntry,
};
use yargle::dta::types::SongMetadata;

fn chars(s: &str) -> Vec<char> {
    s.chars().collect()
}

fn entry(path: &str, display: &str) -> NameEntry {
    NameEntry {
        path: path.to_string(),
        display_name: display.to_string(),
        description: format!("desc of {}", path),
        file_size: path.len() as u64,
    }
}

fn facts(shortname: &str, inst: Option<(bool, bool, bool, bool, bool)>) -> DtaFacts {
    DtaFacts { shortname: shortname.to_string(), instruments: inst }
}

#[test]
fn instrument_and_difficulty_names() {
    assert_eq!(instrument_name(0), "Guitar");
    assert_eq!(instrument_name(13), "Co-op Guitar (6-fret)");
    assert_eq!(instrument_name(23), "Elite Drums");
    assert_eq!(instrument_name(41), "Harmony");
    assert_eq!(instrument_name(255), "Band");
    assert_eq!(instrument_name(99), "Unknown");
    assert_eq!(difficulty_name(0), "Beginner");
    assert_eq!(difficulty_name(4), "Expert");
    assert_eq!(difficulty_name(5), "Expert+");
    assert_eq!(difficulty_name(-1), "Unknown");
}

#[test]
fn titles_are_normalized_for_matching() {
    assert_eq!(norm_title("Don't Stop Me-Now!"), "dontstopmenow");
    assert_eq!(norm_title("Café 2000"), "café2000");
    assert_eq!(norm_title(""), "");
}

#[test]
fn names_are_lowered_and_collapsed() {
    assert_eq!(normalize_name("  The   BEATLES\tHey Jude \n"), "the beatles hey jude");
    assert_eq!(normalize_name("   "), "");
}

#[test]
fn file_names_lose_forbidden_characters() {
    assert_eq!(sanitize_filename("AC/DC: Back in Black?"), "ACDC Back in Black");
    assert_eq!(sanitize_filename("a<b>c|d*e\"f\\g"), "abcdefg");
    assert_eq!(sanitize_filename("Song..."), "Song");
    assert_eq!(sanitize_filename("A . ."), "A");
    assert_eq!(sanitize_filename("  spaced   out  "), "spaced out");
}

#[test]
fn long_paths_only_on_windows() {
    assert_eq!(to_win_long_path("C:/Songs/a.con", true), "\\\\?\\C:\\Songs\\a.con");
    assert_eq!(to_win_long_path("\\\\?\\C:\\x", true), "\\\\?\\C:\\x");
    assert_eq!(to_win_long_path("C:/Songs", false), "C:/Songs");
}

#[test]
fn collision_names_count_up() {
    assert_eq!(collision_name("Song", 2), "Song (2)");
    assert_eq!(collision_name("", 10), " (10)");
}

#[test]
fn field_values_for_the_batch_editor() {
    let mut m = SongMetadata::new();
    m.genre = "rock".to_string();
    m.rating = Some(3);
    m.year_released = Some(-5);
    m.author = "Me".to_string();
    assert_eq!(field_value(&m, "genre"), "rock");
    assert_eq!(field_value(&m, "rating"), "3");
    assert_eq!(field_value(&m, "year_released"), "-5");
    assert_eq!(field_value(&m, "author"), "Me");
    assert_eq!(field_value(&m, "sub_genre"), "");
    assert_eq!(field_value(&m, "nonsense"), "");
}

#[test]
fn artist_and_name_fall_back() {
    let mut m = SongMetadata::new();
    assert!(artist_and_name(&m).is_none());
    assert!(artist_name_album(&m).is_none());
    m.album_name = "LP".to_string();
    assert!(artist_and_name(&m).is_none());
    assert_eq!(
        artist_name_album(&m),
        Some(("Unknown Artist".to_string(), "Unknown Song".to_string(), "LP".to_string()))
    );
    m.name = "Tune".to_string();
    assert_eq!(artist_and_name(&m), Some(("Unknown Artist".to_string(), "Tune".to_string())));
}

#[test]
fn rename_previews() {
    let p = rename_preview(
        "/x/old".to_string(),
        "old".to_string(),
        Some(("AC/DC".to_string(), "Thunder".to_string())),
    );
    assert_eq!(p.new_name, "ACDC - Thunder_rb3con");
    assert_eq!(p.status, "rename");
    let same = rename_preview(
        "/x/A - B_rb3con".to_string(),
        "A - B_rb3con".to_string(),
        Some(("A".to_string(), "B".to_string())),
    );
    assert_eq!(same.status, "skip_same");
    let none = rename_preview("/x/y".to_string(), "y".to_string(), None);
    assert_eq!(none.new_name, "");
    assert_eq!(none.status, "skip_no_metadata");
    assert_eq!(none.current_name, "y");
    assert_eq!(none.path, "/x/y");
}

#[test]
fn organize_targets() {
    let (a, b, t) = organize_folders("Guns N' Roses?", "Appetite.");
    assert_eq!(a, "Guns N' Roses");
    assert_eq!(b, "Appetite");
    assert_eq!(t, "Guns N' Roses/Appetite");
}

#[test]
fn mogg_versions() {
    assert!(matches!(mogg_state(&[0x0A, 0, 0, 0, 9]), Ok(MoggState::AlreadyDecrypted)));
    assert!(matches!(mogg_state(&[0x0B, 0, 0, 0]), Ok(MoggState::Encrypted)));
    assert!(matches!(mogg_state(&[0x11, 0, 0, 0]), Ok(MoggState::Encrypted)));
    assert_eq!(mogg_state(&[0x05, 0, 0, 0]).err().unwrap(), "Unsupported MOGG version: 0x05");
    assert_eq!(mogg_state(&[0x12, 0, 0, 0]).err().unwrap(), "Unsupported MOGG version: 0x12");
    assert_eq!(mogg_state(&[0xFF, 0x01, 0, 0]).err().unwrap(), "Unsupported MOGG version: 0x1FF");
    assert_eq!(mogg_state(&[0x0A, 0, 0]).err().unwrap(), "MOGG file too small");
}

#[test]
fn decrypt_tally() {
    let names = vec!["a".to_string(), "b".to_string(), "c".to_string(), "d".to_string(), "e".to_string()];
    let outcomes = vec![
        Ok(DecryptStatus::Decrypted),
        Err("bad key".to_string()),
        Ok(DecryptStatus::AlreadyDecrypted),
        Ok(DecryptStatus::NoMogg),
        Ok(DecryptStatus::Decrypted),
    ];
    let r = tally_decrypts(&names, &outcomes);
    assert_eq!(r.total, 5);
    assert_eq!(r.decrypted, 2);
    assert_eq!(r.already_decrypted, 1);
    assert_eq!(r.no_mogg, 1);
    assert_eq!(r.errors, vec!["b: bad key".to_string()]);
}

#[test]
fn instruments_from_ranks() {
    let mut m = SongMetadata::new();
    m.rank_drum = Some(3);
    m.rank_guitar = Some(0);
    m.rank_vocals = Some(-1);
    m.rank_keys = Some(1);
    assert_eq!(instrument_flags(&m), (true, false, false, false, true));
    m.shortname = "song1".to_string();
    m.name = "My Song Name".to_string();
    let pf = package_facts(&m);
    assert_eq!(pf.shortname, "song1");
    assert_eq!(pf.instruments, Some((true, false, false, false, true)));
    let ff = folder_facts(&m);
    assert_eq!(ff.shortname, "mysongname");
    m.name = String::new();
    assert_eq!(folder_facts(&m).shortname, "");
}

#[test]
fn strings_sort_code_point_by_code_point() {
    assert!(chars_lt(&chars("abc"), &chars("abd")));
    assert!(chars_lt(&chars("ab"), &chars("abc")));
    assert!(!chars_lt(&chars("abc"), &chars("abc")));
    assert!(!chars_lt(&chars("b"), &chars("abc")));
    assert!(chars_lt(&chars("Z"), &chars("a")));
    assert!(chars_lt(&chars(""), &chars("a")));
    let keys = vec![chars("b"), chars("a"), chars("b"), chars("a")];
    assert_eq!(sorted_order(&keys), vec![1, 3, 0, 2]);
}

#[test]
fn candidates_share_a_normalized_name() {
    let entries = vec![
        entry("1", "Song A"),
        entry("2", "Other"),
        entry("3", "song  a"),
        entry("4", "Lone"),
        entry("5", "OTHER"),
        entry("6", "SONG A"),
    ];
    assert_eq!(duplicate_candidates(&entries), vec![0, 2, 5, 1, 4]);
    assert!(duplicate_candidates(&vec![entry("1", "x"), entry("2", "y")]).is_empty());
}

#[test]
fn groups_regroup_by_short_name_and_sort() {
    let cands = vec![entry("p1", "Zed"), entry("p2", "zed"), entry("p3", "Alpha"), entry("p4", "alpha")];
    let fs = vec![
        facts("zed1", Some((true, true, false, false, false))),
        facts("zed2", None),
        facts("", Some((false, false, true, false, false))),
        facts("", None),
    ];
    let groups = duplicate_groups(&cands, &fs);
    // the two "Zed" packages have different short names: not duplicates
    assert_eq!(groups.len(), 1);
    assert_eq!(groups[0].shortname, "alpha");
    assert_eq!(groups[0].display_name, "Alpha");
    assert_eq!(groups[0].entries.len(), 2);
    assert_eq!(groups[0].entries[0].path, "p3");
    assert!(groups[0].entries[0].has_bass);
    assert!(!groups[0].entries[1].has_bass);
    assert_eq!(groups[0].entries[1].description, "desc of p4");

    let cands2 = vec![entry("q1", "beta"), entry("q2", "Beta"), entry("q3", "Alpha"), entry("q4", "ALPHA")];
    let fs2 = vec![facts("b", None), facts("b", None), facts("a", None), facts("a", None)];
    let g2 = duplicate_groups(&cands2, &fs2);
    assert_eq!(g2.len(), 2);
    assert_eq!(g2[0].display_name, "Alpha");
    assert_eq!(g2[0].shortname, "a");
    assert_eq!(g2[1].display_name, "beta");
    assert_eq!(g2[1].entries[1].path, "q2");
    assert_eq!(g2[1].entries[1].file_size, 2);
}


#[test]
fn art_hits() {
    let a = itunes_result("https://x/100x100bb.jpg");
    assert_eq!(a.url, "https://x/600x600bb.jpg");
    assert_eq!(a.source, "iTunes");
    assert_eq!(a.thumbnail_url, "https://x/100x100bb.jpg");
    let img = |front: Option<bool>, image: Option<&str>, small: Option<&str>, s250: Option<&str>| CoverImage {
        front,
        image: image.map(|s| s.to_string()),
        small: small.map(|s| s.to_string()),
        size_250: s250.map(|s| s.to_string()),
    };
    let hit = cover_art_result(&vec![img(Some(false), Some("back"), None, None), img(Some(true), Some("front"), None, Some("t250"))]).unwrap();
    assert_eq!((hit.url.as_str(), hit.source.as_str(), hit.thumbnail_url.as_str()), ("front", "MusicBrainz", "t250"));
    let plain = cover_art_result(&vec![img(Some(true), Some("f"), None, None)]).unwrap();
    assert_eq!(plain.thumbnail_url, "f");
    // the first front image decides, even without a URL
    assert!(cover_art_result(&vec![img(Some(true), None, None, None), img(Some(true), Some("g"), None, None)]).is_none());
    assert!(cover_art_result(&vec![]).is_none());
    assert_eq!(downloaded_art_url("image/png", b"abc"), "data:image/png;base64,YWJj");
    assert_eq!(downloaded_art_url("text/html", b""), "data:image/jpeg;base64,");
}

#[test]
fn mogg_inside_a_package() {
    let mut data = vec![0u8; 64];
    data[16] = 0x0A;
    assert!(matches!(packed_mogg_state(&data, &[16]), Ok(MoggState::AlreadyDecrypted)));
    data[16] = 0x0C;
    assert!(matches!(packed_mogg_state(&data, &[16, 32]), Ok(MoggState::Encrypted)));
    assert_eq!(packed_mogg_state(&data, &[]).err().unwrap(), "MOGG file has no blocks");
    assert_eq!(packed_mogg_state(&data, &[61]).err().unwrap(), "MOGG data offset out of bounds");
}

fn play(date: &str, ins: &str, dif: &str, score: i64, build: &str, artist: &str) -> PlayKey {
    PlayKey {
        date: date.to_string(),
        player_name: "P".to_string(),
        instrument: ins.to_string(),
        difficulty: dif.to_string(),
        score,
        build: build.to_string(),
        artist_norm: artist.to_string(),
    }
}

#[test]
fn song_scores_keep_the_best_play_per_part() {
    let plays = vec![
        play("d1", "Guitar", "Expert", 900, "Stable", "band"),
        play("d1", "Guitar", "Expert", 900, "Nightly", "band"),
        play("d2", "Guitar", "Expert", 1000, "Stable", "band"),
        play("d3", "Drums", "Hard", 500, "Nightly", "band"),
        play("d4", "Guitar", "Hard", 700, "Stable", "other"),
    ];
    let rows = collapse_song_scores(&plays, &"band".to_string());
    let got: Vec<(usize, &str, i64)> = rows.iter().map(|r| (r.play, r.build.as_str(), r.attempts)).collect();
    assert_eq!(got, vec![(2, "Stable", 2), (3, "Nightly", 1)]);

    // an artist no play has narrows nothing
    let all = collapse_song_scores(&plays, &"nobody".to_string());
    let got: Vec<(usize, &str, i64)> = all.iter().map(|r| (r.play, r.build.as_str(), r.attempts)).collect();
    assert_eq!(got, vec![(2, "Stable", 2), (4, "Stable", 1), (3, "Nightly", 1)]);

    // a play in both builds, best of its part, shows both
    let pair = vec![
        play("d1", "Guitar", "Expert", 900, "Stable", "band"),
        play("d1", "Guitar", "Expert", 900, "Nightly", "band"),
    ];
    let both = collapse_song_scores(&pair, &String::new());
    assert_eq!(both.len(), 1);
    assert_eq!(both[0].build, "Stable + Nightly");
    assert_eq!(both[0].attempts, 1);
}

#[test]
fn score_rows_are_one_per_part_best_first() {
    let plays = vec![
        play("d0", "Guitar", "Expert", 100, "Stable", ""),
        play("d1", "Drums", "Hard", 500, "Stable", ""),
        play("d2", "Guitar", "Expert", 300, "Stable", ""),
        play("d3", "Drums", "Hard", 200, "Nightly", ""),
        play("d4", "Bass", "Easy", 50, "Stable", ""),
        play("d5", "Guitar", "Hard", 300, "Stable", ""),
    ];
    let rows = collapse_song_scores(&plays, &String::new());
    let shown: Vec<usize> = rows.iter().map(|r| r.play).collect();
    assert_eq!(shown, vec![1, 2, 5, 4]);
    for i in 0..rows.len() {
        for j in (i + 1)..rows.len() {
            let (a, b) = (&plays[rows[i].play], &plays[rows[j].play]);
            assert!(a.score >= b.score);
            assert!((a.instrument.as_str(), a.difficulty.as_str()) != (b.instrument.as_str(), b.difficulty.as_str()));
        }
    }
}

#[test]
fn score_and_file_dates() {
    // 2021-01-01 00:00:00 UTC is 1609459200 Unix seconds.
    assert_eq!(score_date(621355968000000000 + 1609459200 * 10_000_000 + 59 * 10_000_000), "2021-01-01 00:00");
    assert_eq!(score_date(621355968000000000), "1970-01-01 00:00");
    assert_eq!(score_date(i64::MIN), "");
    assert_eq!(file_time_text(1609459261), "2021-01-01 00:01:01");
    assert_eq!(file_time_text(u64::MAX / 2), "1970-01-01 00:00:00");
}

#[test]
fn sanitized_names_stay_sanitized() {
    for name in ["  Mr.  Big...  ", "AC/DC: Back in Black?", "a\t\tb .", ". . .", "x\u{a0}y"] {
        let once = sanitize_filename(name);
        assert_eq!(sanitize_filename(&once), once);
        assert!(!once.ends_with('.') && !once.ends_with(' ') && !once.starts_with(' '));
        assert!(!once.contains("  "));
    }
    assert_eq!(sanitize_filename("  Mr.  Big...  "), "Mr. Big");
}
