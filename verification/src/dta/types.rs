//! Metadata records shared by the DTA and song.ini readers and writers.
use vstd::prelude::*;

verus! {

/// Severity of a metadata problem; errors sort before warnings, warnings before info.
#[derive(Debug, Clone, Copy, PartialEq, Eq, Structural)]
pub enum ValidationLevel {
    Error,
    Warning,
    Info,
}

impl ValidationLevel {
    /// Position in the error, warning, info order.
    pub open spec fn rank(self) -> int {
        match self {
            ValidationLevel::Error => 0,
            ValidationLevel::Warning => 1,
            ValidationLevel::Info => 2,
        }
    }
}

/// One problem found in a song's metadata.
pub struct ValidationIssue {
    pub level: ValidationLevel,
    pub field: String,
    pub message: String,
}

/// Plain-value picture of a `ValidationIssue`.
pub struct IssueSpec {
    pub level: ValidationLevel,
    pub field: Seq<char>,
    pub message: Seq<char>,
}

impl View for ValidationIssue {
    type V = IssueSpec;

    open spec fn view(&self) -> IssueSpec {
        IssueSpec { level: self.level, field: self.field@, message: self.message@ }
    }
}

/// Song metadata as the editor shows it.
pub struct SongMetadata {
    pub shortname: String,
    pub name: String,
    pub artist: String,
    pub album_name: String,
    pub album_track_number: Option<i32>,
    pub genre: String,
    pub sub_genre: String,
    pub vocal_gender: String,
    pub year_released: Option<i32>,
    pub song_length: Option<i32>,
    pub rating: Option<i32>,
    pub song_id: Option<i32>,
    pub game_origin: String,
    pub preview_start: Option<i32>,
    pub preview_end: Option<i32>,
    pub rank_drum: Option<i32>,
    pub rank_guitar: Option<i32>,
    pub rank_bass: Option<i32>,
    pub rank_vocals: Option<i32>,
    pub rank_keys: Option<i32>,
    pub rank_band: Option<i32>,
    pub rank_real_guitar: Option<i32>,
    pub rank_real_bass: Option<i32>,
    pub rank_real_keys: Option<i32>,
    pub author: String,
}

/// Plain-value picture of `SongMetadata`: texts as character sequences.
pub struct MetaSpec {
    pub shortname: Seq<char>,
    pub name: Seq<char>,
    pub artist: Seq<char>,
    pub album_name: Seq<char>,
    pub album_track_number: Option<i32>,
    pub genre: Seq<char>,
    pub sub_genre: Seq<char>,
    pub vocal_gender: Seq<char>,
    pub year_released: Option<i32>,
    pub song_length: Option<i32>,
    pub rating: Option<i32>,
    pub song_id: Option<i32>,
    pub game_origin: Seq<char>,
    pub preview_start: Option<i32>,
    pub preview_end: Option<i32>,
    pub rank_drum: Option<i32>,
    pub rank_guitar: Option<i32>,
    pub rank_bass: Option<i32>,
    pub rank_vocals: Option<i32>,
    pub rank_keys: Option<i32>,
    pub rank_band: Option<i32>,
    pub rank_real_guitar: Option<i32>,
    pub rank_real_bass: Option<i32>,
    pub rank_real_keys: Option<i32>,
    pub author: Seq<char>,
}

impl View for SongMetadata {
    type V = MetaSpec;

    open spec fn view(&self) -> MetaSpec {
        MetaSpec {
            shortname: self.shortname@,
            name: self.name@,
            artist: self.artist@,
            album_name: self.album_name@,
            album_track_number: self.album_track_number,
            genre: self.genre@,
            sub_genre: self.sub_genre@,
            vocal_gender: self.vocal_gender@,
            year_released: self.year_released,
            song_length: self.song_length,
            rating: self.rating,
            song_id: self.song_id,
            game_origin: self.game_origin@,
            preview_start: self.preview_start,
            preview_end: self.preview_end,
            rank_drum: self.rank_drum,
            rank_guitar: self.rank_guitar,
            rank_bass: self.rank_bass,
            rank_vocals: self.rank_vocals,
            rank_keys: self.rank_keys,
            rank_band: self.rank_band,
            rank_real_guitar: self.rank_real_guitar,
            rank_real_bass: self.rank_real_bass,
            rank_real_keys: self.rank_real_keys,
            author: self.author@,
        }
    }
}

/// Metadata with every text empty and every number unset.
pub open spec fn empty_meta() -> MetaSpec {
    MetaSpec {
        shortname: Seq::empty(),
        name: Seq::empty(),
        artist: Seq::empty(),
        album_name: Seq::empty(),
        album_track_number: None,
        genre: Seq::empty(),
        sub_genre: Seq::empty(),
        vocal_gender: Seq::empty(),
        year_released: None,
        song_length: None,
        rating: None,
        song_id: None,
        game_origin: Seq::empty(),
        preview_start: None,
        preview_end: None,
        rank_drum: None,
        rank_guitar: None,
        rank_bass: None,
        rank_vocals: None,
        rank_keys: None,
        rank_band: None,
        rank_real_guitar: None,
        rank_real_bass: None,
        rank_real_keys: None,
        author: Seq::empty(),
    }
}

impl SongMetadata {
    /// Metadata with every text empty and every number unset.
    pub fn new() -> (m: SongMetadata)
        ensures
            m@ == empty_meta(),
    {
        SongMetadata {
            shortname: String::new(),
            name: String::new(),
            artist: String::new(),
            album_name: String::new(),
            album_track_number: None,
            genre: String::new(),
            sub_genre: String::new(),
            vocal_gender: String::new(),
            year_released: None,
            song_length: None,
            rating: None,
            song_id: None,
            game_origin: String::new(),
            preview_start: None,
            preview_end: None,
            rank_drum: None,
            rank_guitar: None,
            rank_bass: None,
            rank_vocals: None,
            rank_keys: None,
            rank_band: None,
            rank_real_guitar: None,
            rank_real_bass: None,
            rank_real_keys: None,
            author: String::new(),
        }
    }

    /// A field-by-field copy.
    pub fn duplicate(&self) -> (m: SongMetadata)
        ensures
            m@ == self@,
    {
        SongMetadata {
            shortname: self.shortname.clone(),
            name: self.name.clone(),
            artist: self.artist.clone(),
            album_name: self.album_name.clone(),
            album_track_number: self.album_track_number,
            genre: self.genre.clone(),
            sub_genre: self.sub_genre.clone(),
            vocal_gender: self.vocal_gender.clone(),
            year_released: self.year_released,
            song_length: self.song_length,
            rating: self.rating,
            song_id: self.song_id,
            game_origin: self.game_origin.clone(),
            preview_start: self.preview_start,
            preview_end: self.preview_end,
            rank_drum: self.rank_drum,
            rank_guitar: self.rank_guitar,
            rank_bass: self.rank_bass,
            rank_vocals: self.rank_vocals,
            rank_keys: self.rank_keys,
            rank_band: self.rank_band,
            rank_real_guitar: self.rank_real_guitar,
            rank_real_bass: self.rank_real_bass,
            rank_real_keys: self.rank_real_keys,
            author: self.author.clone(),
        }
    }
}

impl Default for SongMetadata {
    fn default() -> (m: SongMetadata)
        ensures
            m@ == empty_meta(),
    {
        SongMetadata::new()
    }
}

/// Summary info for the file list (quick to parse from header only).
pub struct SongSummary {
    pub path: String,
    pub display_name: String,
    pub description: String,
    pub title_name: String,
    pub has_thumbnail: bool,
    pub is_folder: bool,
    pub album_name: String,
    pub author: String,
    pub game_origin: String,
}

/// Full details for the metadata editor.
pub struct SongDetails {
    pub path: String,
    pub display_name: String,
    pub description: String,
    pub title_name: String,
    pub thumbnail_base64: String,
    pub metadata: SongMetadata,
    pub raw_dta: String,
    pub dta_file_size: u32,
    pub validation_issues: Vec<ValidationIssue>,
    /// True for unpacked song folders (song.ini), false for CON/STFS packages:
    /// song.ini `diff_*` are native 0-6 tiers, DTA ranks the 0-400+ scale.
    pub is_folder: bool,
}

} // verus!
