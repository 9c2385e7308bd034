use yargle::dta::parser::{extract_metadata, parse_dta, DtaNode};
use yargle::dta::serializer::{apply_metadata, serialize_dta};
use yargle::dta::types::{SongMetadata, ValidationLevel};
use yargle::dta::validator::validate_metadata;

const SONG: &str = ";Song authored by Someone Nice \n(mysong\n   (name \"My Song\")\n   (artist \"The Band\")\n   ('album_name' \"Greatest\")\n   (genre rock) ; the genre\n   (year_released 1999)\n   (song_length 180000)\n   (rank (drum 3) (guitar 0) (bass 2))\n   (preview 1000 31000)\n   (game_origin ugc_plus)\n   (tuning 1.50)\n)\n";

#[test]
fn metadata_is_read_from_the_first_entry() {
    let nodes = parse_dta(SONG).unwrap();
    let m = extract_metadata(&nodes, SONG);
    assert_eq!(m.shortname, "mysong");
    assert_eq!(m.name, "My Song");
    assert_eq!(m.artist, "The Band");
    assert_eq!(m.album_name, "Greatest");
    assert_eq!(m.genre, "rock");
    assert_eq!(m.year_released, Some(1999));
    assert_eq!(m.song_length, Some(180000));
    assert_eq!(m.rank_drum, Some(3));
    assert_eq!(m.rank_guitar, Some(0));
    assert_eq!(m.rank_bass, Some(2));
    assert_eq!(m.rank_vocals, None);
    assert_eq!(m.preview_start, Some(1000));
    assert_eq!(m.preview_end, Some(31000));
    assert_eq!(m.game_origin, "ugc_plus");
    assert_eq!(m.author, "Someone Nice");
}

#[test]
fn nodes_keep_comments_and_white_space() {
    let nodes = parse_dta("; hi\n(a 1 -2 x \"s\")").unwrap();
    assert_eq!(nodes.len(), 2);
    assert!(matches!(&nodes[0], DtaNode::Comment(c) if c == "; hi\n"));
    match &nodes[1] {
        DtaNode::List(items) => {
            assert!(matches!(&items[0], DtaNode::Symbol(s) if s == "a"));
            assert!(matches!(&items[1], DtaNode::Whitespace(s) if s == " "));
            assert!(matches!(&items[2], DtaNode::Int(1)));
            assert!(matches!(&items[4], DtaNode::Int(-2)));
            assert!(matches!(&items[8], DtaNode::String(s) if s == "s"));
        }
        _ => panic!("expected a list"),
    }
}

#[test]
fn unclosed_lists_are_an_error() {
    assert_eq!(parse_dta("(a (b)").err().unwrap(), "Unexpected end of input in list");
    assert!(parse_dta(")(a)").is_ok());
    assert!(parse_dta("").unwrap().is_empty());
}

#[test]
fn text_prints_back_as_it_was() {
    let text = "; header\n(song\n  (name \"A \\\"quoted\\\" name\")\n  (vols (-1.5 0.0)) ;x\n\t(id 17)\n)\n";
    let nodes = parse_dta(text).unwrap();
    assert_eq!(serialize_dta(&nodes), text);
}

#[test]
fn edits_land_in_their_fields() {
    let text = "(s\n (name \"Old\")\n (artist \"Who\")\n (genre pop)\n (year_released 1990)\n (rank (guitar 1) (drum 2))\n (preview 5 6)\n)";
    let mut nodes = parse_dta(text).unwrap();
    let mut m = extract_metadata(&nodes, text);
    m.name = "New".to_string();
    m.genre = "rock".to_string();
    m.year_released = Some(2001);
    m.rank_drum = Some(4);
    m.preview_start = Some(7);
    m.preview_end = Some(8);
    apply_metadata(&mut nodes, &m);
    let out = serialize_dta(&nodes);
    assert_eq!(
        out,
        "(s\n (name \"New\")\n (artist \"Who\")\n (genre rock)\n (year_released 2001)\n (rank (guitar 1) (drum 4))\n (preview 7 8)\n)"
    );
    let back = extract_metadata(&parse_dta(&out).unwrap(), &out);
    assert_eq!(back.name, "New");
    assert_eq!(back.rank_drum, Some(4));
    assert_eq!(back.year_released, Some(2001));
}

#[test]
fn validation_orders_errors_first() {
    let mut m = SongMetadata::new();
    m.year_released = Some(1800);
    m.game_origin = "ugc_plus".to_string();
    let issues = validate_metadata(&m, false);
    let fields: Vec<&str> = issues.iter().map(|i| i.field.as_str()).collect();
    assert_eq!(
        fields,
        vec![
            "name", "artist", "shortname", "genre", "ranks", "song_length", "author",
            "year_released", "album_name", "game_origin", "thumbnail", "preview_start", "rating"
        ]
    );
    assert_eq!(issues[0].level, ValidationLevel::Error);
    assert_eq!(issues[2].level, ValidationLevel::Warning);
    assert_eq!(issues[12].level, ValidationLevel::Info);
    assert_eq!(issues[7].message, "Year 1800 looks invalid (expected 1900–2030)");
    assert_eq!(issues[9].message, "Game origin is default 'ugc_plus'");

    let mut good = SongMetadata::new();
    good.name = "n".to_string();
    good.artist = "a".to_string();
    good.shortname = "s".to_string();
    good.genre = "g".to_string();
    good.rank_band = Some(1);
    good.song_length = Some(1);
    good.author = "c".to_string();
    good.year_released = Some(2000);
    good.album_name = "al".to_string();
    good.game_origin = "rb3".to_string();
    good.preview_start = Some(0);
    good.rating = Some(1);
    assert!(validate_metadata(&good, true).is_empty());
    good.song_length = Some(0);
    let issues = validate_metadata(&good, true);
    assert_eq!(issues.len(), 1);
    assert_eq!(issues[0].message, "Song length is zero or negative");
}

#[test]
fn applied_metadata_reads_back() {
    let text = "(s (name Bare) (album_name) (genre \"str\" pop) (sub_genre rock) (song_id 5) (song_id 6) (rank (bass 1) (bass 2)))";
    let mut nodes = parse_dta(text).unwrap();
    let mut m = extract_metadata(&nodes, text);
    m.name = "N".to_string();
    m.album_name = "Never written".to_string();
    m.genre = "metal".to_string();
    m.sub_genre = "doom".to_string();
    m.song_id = Some(9);
    m.rank_bass = Some(3);
    apply_metadata(&mut nodes, &m);
    let back = extract_metadata(&nodes, text);
    assert_eq!(back.shortname, "s");
    assert_eq!(back.name, "N");
    assert_eq!(back.album_name, "");
    assert_eq!(back.genre, "str");
    assert_eq!(back.sub_genre, "doom");
    assert_eq!(back.song_id, Some(9));
    assert_eq!(back.rank_bass, Some(3));
}

#[test]
fn applying_metadata_twice_changes_nothing_more() {
    let text = "; header\n(s (name 'sym') (artist \"A\") (year_released 1990) (preview 1 2) (rank (drum 1)))\n(other (name \"keep\"))\n(tail 3)";
    let mut m = extract_metadata(&parse_dta(text).unwrap(), text);
    m.name = "New".to_string();
    m.year_released = Some(2020);
    m.preview_start = Some(5);
    m.preview_end = Some(6);
    m.rank_drum = Some(4);
    let mut once = parse_dta(text).unwrap();
    apply_metadata(&mut once, &m);
    let mut twice = parse_dta(text).unwrap();
    apply_metadata(&mut twice, &m);
    apply_metadata(&mut twice, &m);
    assert_eq!(serialize_dta(&twice), serialize_dta(&once));
    let before = parse_dta(text).unwrap();
    assert_eq!(once.len(), before.len());
    assert_eq!(extract_metadata(&once, text).shortname, extract_metadata(&before, text).shortname);
    assert!(matches!(&once[0], DtaNode::Comment(c) if c == "; header\n"));
    let rest_once: Vec<DtaNode> = once.into_iter().skip(2).collect();
    let rest_before: Vec<DtaNode> = before.into_iter().skip(2).collect();
    assert_eq!(serialize_dta(&rest_once), serialize_dta(&rest_before));
}

#[test]
fn names_and_year_read_back_where_their_lists_hold_values() {
    let text = "(s (name \"Old\") (artist \"B\") (album_name \"C\") (year_released 1990))";
    let mut nodes = parse_dta(text).unwrap();
    let mut m = extract_metadata(&nodes, text);
    m.name = "N".to_string();
    m.artist = "A2".to_string();
    m.album_name = "Al".to_string();
    m.year_released = Some(2001);
    apply_metadata(&mut nodes, &m);
    let back = extract_metadata(&nodes, text);
    assert_eq!(back.name, "N");
    assert_eq!(back.artist, "A2");
    assert_eq!(back.album_name, "Al");
    assert_eq!(back.year_released, Some(2001));
}

#[test]
fn printing_what_was_read_gives_the_text() {
    let texts = [
        ";Song authored by X\n(s\n   (name \"My \\\"Song\\\"\")\n   (year_released 1999)\n   (tuning 1.50) ; cents\n   (rank (drum 3))\n   \"a\"b\n)\n",
        "  ",
        "(a (b (c -7)))",
    ];
    for t in texts {
        assert_eq!(serialize_dta(&parse_dta(t).unwrap()), t);
    }
}
