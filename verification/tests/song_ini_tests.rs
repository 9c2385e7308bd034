use yargle::song_ini::{extract_loading_phrase, parse_song_ini, serialize_song_ini};

#[test]
fn test_parse_basic() {
    let ini = "[song]\nname = Test Song\nartist = Test Artist\nalbum = Test Album\nyear = 2020\ncharter = TestCharter\ndiff_guitar = 4\n";
    let meta = parse_song_ini(ini);
    assert_eq!(meta.name, "Test Song");
    assert_eq!(meta.artist, "Test Artist");
    assert_eq!(meta.album_name, "Test Album");
    assert_eq!(meta.year_released, Some(2020));
    assert_eq!(meta.author, "TestCharter");
    assert_eq!(meta.rank_guitar, Some(4));
}

#[test]
fn test_roundtrip() {
    let ini = "[song]\nname = Old Name\nartist = Old Artist\ncharter = Someone\n";
    let mut meta = parse_song_ini(ini);
    meta.name = "New Name".to_string();
    meta.artist = "New Artist".to_string();
    let result = serialize_song_ini(&meta, ini, None, None);
    assert!(result.contains("name = New Name"));
    assert!(result.contains("artist = New Artist"));
    assert!(result.contains("charter = Someone"));
}

#[test]
fn ini_keys_are_case_insensitive_and_first_charter_wins() {
    let ini = "[Song]\r\nNAME = Song\r\nFrets = First\r\ncharter = Second\r\n; comment = x\r\n# other = y\r\n";
    let meta = parse_song_ini(ini);
    assert_eq!(meta.name, "Song");
    assert_eq!(meta.author, "First");
}

#[test]
fn ini_bad_numbers_are_unset() {
    let meta = parse_song_ini("year = soon\nsong_length = -12\ndiff_bass = +3\n");
    assert_eq!(meta.year_released, None);
    assert_eq!(meta.song_length, Some(-12));
    assert_eq!(meta.rank_bass, Some(3));
}

#[test]
fn loading_phrase_is_trimmed_first_value() {
    let ini = "name = x\n Loading_Phrase =  Hello there  \nloading_phrase = later\n";
    assert_eq!(extract_loading_phrase(ini), "Hello there");
    assert_eq!(extract_loading_phrase("name = x\n"), "");
}

#[test]
fn serialize_appends_missing_keys_and_keeps_unknown_lines() {
    let ini = "[song]\nFrets = Old\nunknown = keep me\n";
    let mut meta = parse_song_ini(ini);
    meta.author = "New".to_string();
    meta.year_released = Some(1999);
    meta.name = "Title".to_string();
    let out = serialize_song_ini(&meta, ini, None, Some("Phrase"));
    assert_eq!(
        out,
        "[song]\nFrets = New\nunknown = keep me\nname = Title\nyear = 1999\nloading_phrase = Phrase\n"
    );
}

#[test]
fn serialize_display_name_overrides_name() {
    let ini = "name = A";
    let meta = parse_song_ini(ini);
    let out = serialize_song_ini(&meta, ini, Some("B"), None);
    assert_eq!(out, "name = B");
}

#[test]
fn written_fields_read_back() {
    let original = "[Song]\r\nNAME = Old\r\nFrets = Someone\r\n; note = kept\r\nCharter = Other\r\nunknown = x";
    let mut meta = parse_song_ini(original);
    meta.name = "Ignored".to_string();
    meta.artist = "Band = Ltd".to_string();
    meta.album_name = String::new();
    meta.genre = "Rock".to_string();
    meta.author = "New Charter".to_string();
    meta.year_released = Some(-1999);
    meta.rank_real_keys = Some(0);
    meta.song_length = Some(i32::MAX);
    meta.game_origin = "rb3".to_string();
    let out = serialize_song_ini(&meta, original, Some("Shown Name"), Some("  spaced  "));
    let back = parse_song_ini(&out);
    assert_eq!(back.year_released, Some(-1999));
    assert_eq!(back.rank_real_keys, Some(0));
    assert_eq!(back.song_length, Some(i32::MAX));
    assert_eq!(back.game_origin, "rb3");
    assert_eq!(back.name, "Shown Name");
    assert_eq!(back.artist, "Band = Ltd");
    assert_eq!(back.album_name, "");
    assert_eq!(back.genre, "Rock");
    assert_eq!(back.author, "New Charter");
    assert!(out.contains("; note = kept"));
    assert!(out.contains("unknown = x"));
}

#[test]
fn multi_line_origin_and_description_leave_fields_alone() {
    let original = "name = Old\nicon = x\n";
    let mut meta = parse_song_ini(original);
    meta.name = "Title".to_string();
    meta.artist = "Band".to_string();
    meta.year_released = Some(2001);
    meta.game_origin = "a\nb".to_string();
    let out = serialize_song_ini(&meta, original, None, Some("first\nnote = second"));
    let back = parse_song_ini(&out);
    assert_eq!(back.name, "Title");
    assert_eq!(back.artist, "Band");
    assert_eq!(back.year_released, Some(2001));
    assert_eq!(back.game_origin, "a");
}

#[test]
fn written_loading_phrase_reads_back_trimmed() {
    let original = "[song]\r\n; loading_phrase = comment\r\nLoading_Phrase = old\r\nname = N\r\n";
    let meta = parse_song_ini(original);
    let out = serialize_song_ini(&meta, original, None, Some("  new phrase  "));
    assert_eq!(extract_loading_phrase(&out), "new phrase");
    let fresh = serialize_song_ini(&meta, "name = N", None, Some("added"));
    assert_eq!(extract_loading_phrase(&fresh), "added");
    let blank = serialize_song_ini(&meta, "", None, Some(""));
    assert_eq!(extract_loading_phrase(&blank), "");
}

#[test]
fn unchanged_metadata_writes_the_text_back() {
    let texts = [
        "[song]\nname = Title\nartist = Band\nalbum = \ngenre = Rock\nfrets = Someone\nyear = 1999\ndiff_band = abc\nicon = rb3\n; comment\nother = keep\n",
        "name = A\nsong_length = -5",
        "NAME = Shout\nArtist = X\nDIFF_BASS = 3",
        "\n",
        "",
    ];
    for t in texts {
        let meta = parse_song_ini(t);
        assert_eq!(serialize_song_ini(&meta, t, None, None), t);
    }
}

#[test]
fn origin_lines_that_restate_fields_leave_them_alone() {
    let mut meta = parse_song_ini("");
    meta.name = "Title".to_string();
    meta.year_released = Some(2001);
    meta.author = "Me".to_string();
    meta.game_origin = "a\nname = Title\nyear = 02001\ncharter = \nnote = x".to_string();
    let out = serialize_song_ini(&meta, "icon = z\nname = Old\n", None, Some("d\nartist = "));
    let back = parse_song_ini(&out);
    assert_eq!(back.author, "Me");
    assert_eq!(back.name, "Title");
    assert_eq!(back.artist, "");
    assert_eq!(back.year_released, Some(2001));
}
