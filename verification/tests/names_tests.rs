use mmove::names::{is_song_name, is_deletable_name, parse_top_name, TopName, dest_folder_name,
    suffixed_dir_name, suffixed_file_name, looks_like_music_root, split_components};
use mmove::bytes::parse_i32;

#[test]
fn path_splitting() {
    assert_eq!(split_components(&b"/a/bb//c/".to_vec()),
        vec![b"a".to_vec(), b"bb".to_vec(), b"c".to_vec()]);
    assert_eq!(split_components(&b"Rock-1990/AlbumA".to_vec()),
        vec![b"Rock-1990".to_vec(), b"AlbumA".to_vec()]);
    assert_eq!(split_components(&b"".to_vec()), Vec::<Vec<u8>>::new());
    assert_eq!(split_components(&b"///".to_vec()), Vec::<Vec<u8>>::new());
    assert_eq!(split_components(&b"plain".to_vec()), vec![b"plain".to_vec()]);
}

#[test]
fn song_extensions() {
    assert!(is_song_name(&b"track1.mp3".to_vec()));
    assert!(is_song_name(&b"piece.flac".to_vec()));
    assert!(is_song_name(&b"loop.ogg".to_vec()));
    assert!(!is_song_name(&b"track1.wav".to_vec()));
    assert!(!is_song_name(&b"track1".to_vec()));
    assert!(!is_song_name(&b"track1.MP3".to_vec()));
    assert!(!is_song_name(&b".mp3".to_vec()));
    assert!(is_song_name(&b"weird.name.mp3".to_vec()));
}

#[test]
fn deletable_junk() {
    assert!(is_deletable_name(&b".DS_Store".to_vec()));
    assert!(is_deletable_name(&b"cover.jpg".to_vec()));
    assert!(is_deletable_name(&b"cover.jpeg".to_vec()));
    assert!(is_deletable_name(&b"cover.png".to_vec()));
    assert!(is_deletable_name(&b"notes.txt".to_vec()));
    assert!(is_deletable_name(&b"release.nfo".to_vec()));
    assert!(is_deletable_name(&b"playlist.m3u".to_vec()));
    assert!(!is_deletable_name(&b"track1.mp3".to_vec()));
    assert!(!is_deletable_name(&b"whatever.doc".to_vec()));
    assert!(!is_deletable_name(&b"DS_Store".to_vec()));
}

#[test]
fn top_folder_names() {
    match parse_top_name(&b"Rock-1990".to_vec()) {
        TopName::Top { genre, source_year } => {
            assert_eq!(genre, b"Rock".to_vec());
            assert_eq!(source_year, 1990);
        },
        _ => panic!("expected a parsed top folder"),
    }
    assert!(matches!(parse_top_name(&b"Plainfolder".to_vec()), TopName::NotTop));
    assert!(matches!(parse_top_name(&b"Hard-Rock-1990".to_vec()), TopName::Malformed));
    match parse_top_name(&b"Rock-1990-Live".to_vec()) {
        TopName::Top { genre, source_year } => {
            assert_eq!(genre, b"Rock".to_vec());
            assert_eq!(source_year, 1990);
        },
        _ => panic!("expected a parsed top folder"),
    }
    assert!(matches!(parse_top_name(&b"Rock-".to_vec()), TopName::Malformed));
}

#[test]
fn integer_parsing() {
    assert_eq!(parse_i32(&b"123".to_vec()), Some(123));
    assert_eq!(parse_i32(&b"-45".to_vec()), Some(-45));
    assert_eq!(parse_i32(&b"+7".to_vec()), Some(7));
    assert_eq!(parse_i32(&b"0".to_vec()), Some(0));
    assert_eq!(parse_i32(&b"".to_vec()), None);
    assert_eq!(parse_i32(&b"-".to_vec()), None);
    assert_eq!(parse_i32(&b"12a".to_vec()), None);
    assert_eq!(parse_i32(&b"2147483647".to_vec()), Some(i32::MAX));
    assert_eq!(parse_i32(&b"2147483648".to_vec()), None);
    assert_eq!(parse_i32(&b"-2147483648".to_vec()), Some(i32::MIN));
    assert_eq!(parse_i32(&b"-2147483649".to_vec()), None);
    assert_eq!(parse_i32(&b"99999999999999999999".to_vec()), None);
    assert_eq!(parse_i32(&b"007".to_vec()), Some(7));
}

#[test]
fn destination_names() {
    assert_eq!(dest_folder_name(&b"Rock".to_vec(), 1995), b"Rock-1995".to_vec());
    assert_eq!(dest_folder_name(&b"Jazz".to_vec(), 7), b"Jazz-7".to_vec());
    assert_eq!(suffixed_dir_name(&b"rock".to_vec(), 31337), b"rock-31337".to_vec());
    assert_eq!(suffixed_file_name(&b"track1.mp3".to_vec(), 42), b"track1-42.mp3".to_vec());
    assert_eq!(suffixed_file_name(&b"noext".to_vec(), 5), b"noext-5.".to_vec());
}

#[test]
fn destination_name_reads_back() {
    // A folder the Materializer creates is classified by a later ingestion
    // as the same genre and year, so what was filed right stays filed right.
    let name = dest_folder_name(&b"Rock".to_vec(), 1995);
    match parse_top_name(&name) {
        TopName::Top { genre, source_year } => {
            assert_eq!(genre, b"Rock".to_vec());
            assert_eq!(source_year, 1995);
        },
        _ => panic!("expected the destination name to parse"),
    }
}

#[test]
fn music_root_check() {
    assert!(looks_like_music_root(&b"/home/someone/Music".to_vec()));
    assert!(looks_like_music_root(&b"/srv/MUSIC/main".to_vec()));
    assert!(looks_like_music_root(&b"music".to_vec()));
    assert!(!looks_like_music_root(&b"/home/someone/videos".to_vec()));
    assert!(!looks_like_music_root(&b"musi".to_vec()));
}
