use mmove::item::YearState;
use mmove::resolve::{TagOutcome, ChildEntry, Probe, resolve_song_year, resolve_dir_year,
    resolve_probe};

fn tagged_year(y: i32) -> TagOutcome {
    TagOutcome::Tag { year: Some(y), date_text: None }
}

#[test]
fn year_aggregation_is_max_one_level() {
    let children = vec![
        ChildEntry { name: b"a.mp3".to_vec(), tag: tagged_year(2001) },
        ChildEntry { name: b"b.mp3".to_vec(), tag: tagged_year(1998) },
        ChildEntry { name: b"c.mp3".to_vec(), tag: tagged_year(2005) },
    ];
    assert_eq!(resolve_dir_year(&children), Ok(YearState::Resolved(2005)));
}

#[test]
fn year_aggregation_ignores_subdirectories() {
    // A subdirectory contributes nothing, even if grandchildren would: the
    // aggregation reads one level only.
    let children = vec![
        ChildEntry { name: b"Disc1".to_vec(), tag: TagOutcome::NoTag },
        ChildEntry { name: b"a.mp3".to_vec(), tag: tagged_year(1977) },
    ];
    assert_eq!(resolve_dir_year(&children), Ok(YearState::Resolved(1977)));
}

#[test]
fn year_aggregation_defaults_to_unknown() {
    let children = vec![
        ChildEntry { name: b"Disc1".to_vec(), tag: TagOutcome::NoTag },
        ChildEntry { name: b"cover.jpg".to_vec(), tag: TagOutcome::NoTag },
    ];
    assert_eq!(resolve_dir_year(&children), Ok(YearState::Unknown));
    assert_eq!(resolve_dir_year(&Vec::new()), Ok(YearState::Unknown));
}

#[test]
fn sentinel_no_song_extension() {
    let tag = tagged_year(1999);
    assert_eq!(resolve_song_year(&b"notes.doc".to_vec(), &tag), Ok(YearState::Unknown));
}

#[test]
fn sentinel_date_shaped_field() {
    let tag = TagOutcome::Tag { year: None, date_text: Some(b"1999-06-01".to_vec()) };
    assert_eq!(resolve_song_year(&b"t.mp3".to_vec(), &tag), Ok(YearState::Resolved(1999)));
}

#[test]
fn sentinel_one_dash_is_unknown() {
    let tag = TagOutcome::Tag { year: None, date_text: Some(b"1999-06".to_vec()) };
    assert_eq!(resolve_song_year(&b"t.mp3".to_vec(), &tag), Ok(YearState::Unknown));
}

#[test]
fn sentinel_missing_path_is_errored() {
    assert_eq!(resolve_probe(&b"t.mp3".to_vec(), &Probe::Missing), Ok(YearState::Errored));
}

#[test]
fn structured_year_wins() {
    let tag = TagOutcome::Tag { year: Some(1987), date_text: Some(b"2001-01-01".to_vec()) };
    assert_eq!(resolve_song_year(&b"t.mp3".to_vec(), &tag), Ok(YearState::Resolved(1987)));
}

#[test]
fn no_tag_or_no_field_is_unknown() {
    assert_eq!(resolve_song_year(&b"t.mp3".to_vec(), &TagOutcome::NoTag),
        Ok(YearState::Unknown));
    let tag = TagOutcome::Tag { year: None, date_text: None };
    assert_eq!(resolve_song_year(&b"t.mp3".to_vec(), &tag), Ok(YearState::Unknown));
}

#[test]
fn plain_integer_field() {
    let tag = TagOutcome::Tag { year: None, date_text: Some(b"1969".to_vec()) };
    assert_eq!(resolve_song_year(&b"t.mp3".to_vec(), &tag), Ok(YearState::Resolved(1969)));
}

#[test]
fn malformed_field_is_fatal() {
    let tag = TagOutcome::Tag { year: None, date_text: Some(b"19x9".to_vec()) };
    assert!(resolve_song_year(&b"t.mp3".to_vec(), &tag).is_err());
    let tag2 = TagOutcome::Tag { year: None, date_text: Some(b"19x9-01-01".to_vec()) };
    assert!(resolve_song_year(&b"t.mp3".to_vec(), &tag2).is_err());
    // An error inside a directory aggregation is fatal for the directory.
    let children = vec![
        ChildEntry { name: b"a.mp3".to_vec(),
            tag: TagOutcome::Tag { year: None, date_text: Some(b"19x9".to_vec()) } },
    ];
    assert!(resolve_dir_year(&children).is_err());
}

#[test]
fn three_dashes_is_unknown() {
    let tag = TagOutcome::Tag { year: None, date_text: Some(b"1999-06-01-extra".to_vec()) };
    assert_eq!(resolve_song_year(&b"t.mp3".to_vec(), &tag), Ok(YearState::Unknown));
}
