# yargle

Song-library tooling for Rock Band style charts, verified with Verus.

`src/` is the verified library:

- `text` — character-level helpers (trimming, lines, numbers, case) with
  their specifications.
- `dta` — the DTA song-entry format: parser, printer, metadata extraction,
  applying edited metadata (`serializer`), validation, and the read-back law
  for applied metadata (`read_back`).
- `song_ini` — reading and writing `song.ini`; `song_ini_read_back` proves
  that what is written reads back.
- `stfs` — CON/LIVE/PIRS packages: header, file table, block chains, header
  and block writers, Xbox album-art textures.
- `midi` — chart overview and note lists read from a MIDI file.
- `commands`, `library` — the decisions behind the application's commands:
  duplicate detection, renaming and organizing plans, score merging, cache
  use, thumbnails.
- `rhythmverse`, `updater` — request building and reply handling for the
  song catalogue and for updates.

`app/` holds what does I/O around the library (files, databases, network,
process launching) and calls into it. `tests/` runs the library on concrete
values.

Laws proved in `src/` include:

- `song_ini_read_back::lemma_song_ini_read_back` — parsing what
  `serialize_song_ini` writes gives back the fields written.
- `dta::read_back::lemma_dta_read_back` — extracting metadata after
  `apply_metadata` gives back the fields written where the entry has a place
  for them.
- `stfs::writer::lemma_display_name_round_trip`,
  `lemma_description_round_trip`, `lemma_thumbnail_round_trip` — header
  fields read back as written.
- `stfs::utf16::lemma_utf16_round_trip`, `text::lemma_parse_i32_dec`.
- `commands::lemma_sort_in_order`, `lemma_sort_permutes`,
  `lemma_song_scores_shape`; `dta::validator::lemma_issues_ordered`;
  `midi::parser::lemma_notes_shape`, `lemma_measure_boundaries`;
  `updater::lemma_is_newer_order`.
