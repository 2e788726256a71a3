use mmove::item::{WorkItem, YearState};
use mmove::walk::{FsNode, FsAction, scan_collection, snapshot_wf_check, tree_wf_check};
use mmove::resolve::{TagOutcome, ChildEntry, Probe, resolve_probe};
use mmove::store::{select_pending, select_movable, set_year, mark_moved, folders_to_create};
use mmove::names::dest_folder_name;
use mmove::plan::{MoveObs, MoveStep, plan_move, plan_move_fresh, EntrySnapshot,
    empty_subdir_indices, any_subdir_left};

fn file(name: &[u8]) -> FsNode {
    FsNode::File { name: name.to_vec() }
}

fn dir(name: &[u8], children: Vec<FsNode>) -> FsNode {
    FsNode::Dir { name: name.to_vec(), children }
}

#[test]
fn junk_pruning_removes_artifact_directory() {
    // A directory holding only a hidden OS metadata file and no songs is
    // fully removed: first the file is deleted, then the emptied folder.
    let root = b"/m/Music".to_vec();
    let tree = vec![dir(b"Rock-1990", vec![dir(b"Artwork", vec![file(b".DS_Store")])])];
    let out = scan_collection(&tree, &root).unwrap();
    assert_eq!(out.actions.len(), 2);
    match &out.actions[0] {
        FsAction::DeleteFile { path } => {
            assert_eq!(path.clone(), vec![b"Rock-1990".to_vec(), b"Artwork".to_vec(),
                b".DS_Store".to_vec()]);
        },
        _ => panic!("expected the junk file deletion first"),
    }
    match &out.actions[1] {
        FsAction::RemoveDir { path } => {
            assert_eq!(path.clone(), vec![b"Rock-1990".to_vec(), b"Artwork".to_vec()]);
        },
        _ => panic!("expected the emptied folder removal second"),
    }
    // The walked top folder keeps nothing.
    match &out.kept[0] {
        FsNode::Dir { name, children } => {
            assert_eq!(name.clone(), b"Rock-1990".to_vec());
            assert!(children.is_empty());
        },
        _ => panic!("expected the top folder"),
    }
}

#[test]
fn walker_records_top_songs_and_directories() {
    let root = b"/m/Music".to_vec();
    let tree = vec![dir(b"Rock-1990", vec![
        file(b"loose.mp3"),
        dir(b"AlbumA", vec![file(b"track1.mp3")]),
        file(b"readme.pdf"),
    ])];
    let out = scan_collection(&tree, &root).unwrap();
    // One record for the loose song, one for AlbumA, one for the top folder;
    // track1.mp3 sits below the top level and is not recorded by itself.
    assert_eq!(out.records.len(), 3);
    let loose = &out.records[0];
    assert_eq!(loose.path, vec![b"Rock-1990".to_vec(), b"loose.mp3".to_vec()]);
    assert_eq!(loose.depth, 0);
    assert!(!loose.is_dir);
    assert!(!loose.moved);
    assert!(matches!(loose.year, YearState::Pending));
    assert_eq!(loose.genre, b"Rock".to_vec());
    assert_eq!(loose.source_year, 1990);
    let album = &out.records[1];
    assert_eq!(album.path, vec![b"Rock-1990".to_vec(), b"AlbumA".to_vec()]);
    assert_eq!(album.depth, 1);
    assert!(album.is_dir);
    let top = &out.records[2];
    assert_eq!(top.path, vec![b"Rock-1990".to_vec()]);
    assert_eq!(top.depth, 0);
    assert!(top.is_dir);
    // The unknown file stays put; nothing was deleted.
    assert!(out.actions.is_empty());
}

#[test]
fn walker_fails_on_malformed_top_name() {
    let root = b"/m/Music".to_vec();
    let tree = vec![dir(b"Hard-Rock", vec![])];
    let err = scan_collection(&tree, &root).unwrap_err();
    assert_eq!(err.name, b"Hard-Rock".to_vec());
    // Undashed directories and files at the root are silently left alone.
    let tree2 = vec![dir(b"Incoming", vec![]), file(b"list.m3u")];
    let ok = scan_collection(&tree2, &root).unwrap();
    assert!(ok.records.is_empty());
    assert!(ok.actions.is_empty());
}

#[test]
fn snapshot_well_formedness() {
    // A listing with unique sibling names passes, even when the same name
    // recurs at different levels; a repeated sibling name does not.
    let ok = vec![
        dir(b"Rock-1990", vec![dir(b"AlbumA", vec![file(b"AlbumA")]), file(b"a.mp3")]),
        dir(b"Jazz-2001", vec![]),
    ];
    assert!(snapshot_wf_check(&ok));
    let twins = dir(b"Rock-1990", vec![file(b"a.mp3"), file(b"a.mp3")]);
    assert!(!tree_wf_check(&twins));
    assert!(!snapshot_wf_check(&vec![twins]));
    let deep = dir(b"Rock-1990", vec![dir(b"AlbumA", vec![file(b"x.mp3"), file(b"x.mp3")])]);
    assert!(!tree_wf_check(&deep));
}

#[test]
fn empty_collection_scans_to_nothing() {
    let root = b"/m/Music".to_vec();
    let out = scan_collection(&Vec::new(), &root).unwrap();
    assert!(out.records.is_empty());
    assert!(out.actions.is_empty());
    assert!(out.kept.is_empty());
    // An empty top folder is still recorded and survives the walk.
    let out2 = scan_collection(&vec![dir(b"Jazz-2001", vec![])], &root).unwrap();
    assert_eq!(out2.records.len(), 1);
    assert!(out2.records[0].is_dir);
    assert_eq!(out2.records[0].path, vec![b"Jazz-2001".to_vec()]);
    assert!(out2.actions.is_empty());
}

#[test]
fn depth_ordering_never_moves_with_pending_children() {
    let obs = MoveObs::Dir { has_subdir: true, dest_taken: false };
    assert!(matches!(plan_move(&b"AlbumA".to_vec(), &obs, 9), MoveStep::SkipPendingChildren));
    let obs2 = MoveObs::Dir { has_subdir: true, dest_taken: true };
    assert!(matches!(plan_move(&b"AlbumA".to_vec(), &obs2, 9), MoveStep::SkipPendingChildren));
    assert!(matches!(plan_move(&b"gone.mp3".to_vec(), &MoveObs::Missing, 9),
        MoveStep::SkipMissing));
}

#[test]
fn collision_safety_two_directories_named_alike() {
    // Two differently-sourced directories, both named `rock`, land in the
    // same destination: the first under its own name, the second under a
    // suffixed one — two distinct surviving directories.
    let first = plan_move(&b"rock".to_vec(), &MoveObs::Dir { has_subdir: false,
        dest_taken: false }, 4711);
    let second = plan_move(&b"rock".to_vec(), &MoveObs::Dir { has_subdir: false,
        dest_taken: true }, 4711);
    let n1 = match first {
        MoveStep::MoveDirAs { name } => name,
        _ => panic!("expected a directory move"),
    };
    let n2 = match second {
        MoveStep::MoveDirAs { name } => name,
        _ => panic!("expected a directory move"),
    };
    assert_eq!(n1, b"rock".to_vec());
    assert_eq!(n2, b"rock-4711".to_vec());
    assert_ne!(n1, n2);
}

#[test]
fn fresh_suffix_collision_names() {
    // The drawn suffix is arbitrary, but the shape of the decision is not:
    // a taken destination yields `<name>-<digits>`, a free one the name
    // itself, and the skips ignore the draw entirely.
    let step = plan_move_fresh(&b"rock".to_vec(),
        &MoveObs::Dir { has_subdir: false, dest_taken: true });
    match step {
        MoveStep::MoveDirAs { name } => {
            assert!(name.len() > 5);
            assert_eq!(&name[..5], b"rock-");
            assert!(name[5..].iter().all(|b| b.is_ascii_digit()));
        },
        _ => panic!("expected a directory move"),
    }
    let clean = plan_move_fresh(&b"rock".to_vec(),
        &MoveObs::Dir { has_subdir: false, dest_taken: false });
    match clean {
        MoveStep::MoveDirAs { name } => assert_eq!(name, b"rock".to_vec()),
        _ => panic!("expected a directory move"),
    }
    assert!(matches!(plan_move_fresh(&b"rock".to_vec(), &MoveObs::Missing),
        MoveStep::SkipMissing));
    assert!(matches!(
        plan_move_fresh(&b"rock".to_vec(), &MoveObs::Dir { has_subdir: true,
            dest_taken: true }),
        MoveStep::SkipPendingChildren
    ));
}

#[test]
fn file_collision_renames_in_place() {
    let step = plan_move(&b"track1.mp3".to_vec(), &MoveObs::File { dest_taken: true }, 77);
    match step {
        MoveStep::MoveFileAs { name } => assert_eq!(name, b"track1-77.mp3".to_vec()),
        _ => panic!("expected a file move"),
    }
    let clean = plan_move(&b"track1.mp3".to_vec(), &MoveObs::File { dest_taken: false }, 77);
    match clean {
        MoveStep::MoveFileAs { name } => assert_eq!(name, b"track1.mp3".to_vec()),
        _ => panic!("expected a file move"),
    }
}

#[test]
fn executor_prefers_deepest_items() {
    let root = b"/m/Music".to_vec();
    let mk = |path: Vec<Vec<u8>>, depth: usize, year: i32| WorkItem {
        path,
        depth,
        year: YearState::Resolved(year),
        genre: b"Rock".to_vec(),
        source_year: 1990,
        is_dir: true,
        moved: false,
        root: root.clone(),
    };
    let store = vec![
        mk(vec![b"Rock-1990".to_vec()], 0, 1995),
        mk(vec![b"Rock-1990".to_vec(), b"A".to_vec(), b"B".to_vec()], 2, 1995),
        mk(vec![b"Rock-1990".to_vec(), b"A".to_vec()], 1, 1995),
    ];
    let order = select_movable(&store, &root);
    assert_eq!(order.len(), 3);
    assert_eq!(store[order[0]].depth, 2);
    assert_eq!(store[order[1]].depth, 1);
    assert_eq!(store[order[2]].depth, 0);
}

fn settled_case(year: YearState, moved: bool, root: &[u8]) -> WorkItem {
    WorkItem {
        path: vec![b"Rock-1990".to_vec(), b"A".to_vec()],
        depth: 1,
        year,
        genre: b"Rock".to_vec(),
        source_year: 1990,
        is_dir: true,
        moved,
        root: root.to_vec(),
    }
}

#[test]
fn selection_skips_settled_items() {
    let here = b"/m/Music";
    let store = vec![
        settled_case(YearState::Resolved(1995), false, here),
        settled_case(YearState::Resolved(1995), true, here),
        settled_case(YearState::Resolved(1990), false, here),
        settled_case(YearState::Unknown, false, here),
        settled_case(YearState::Errored, false, here),
        settled_case(YearState::Resolved(3500), false, here),
        settled_case(YearState::Resolved(1995), false, b"/elsewhere"),
    ];
    let order = select_movable(&store, &here.to_vec());
    assert_eq!(order, vec![0]);
}

#[test]
fn materializer_groups_distinct_pairs() {
    let root = b"/m/Music".to_vec();
    let mk = |genre: &[u8], year: i32| WorkItem {
        path: vec![b"x".to_vec()],
        depth: 0,
        year: YearState::Resolved(year),
        genre: genre.to_vec(),
        source_year: 1990,
        is_dir: true,
        moved: false,
        root: root.clone(),
    };
    let store = vec![mk(b"Rock", 1995), mk(b"Rock", 1995), mk(b"Jazz", 1995),
        mk(b"Rock", 1996), mk(b"Rock", 1990), mk(b"Rock", 1700)];
    let pairs = folders_to_create(&store, &root);
    // (Rock,1995) once, (Jazz,1995), (Rock,1996); the correctly-filed 1990
    // and the out-of-range 1700 demand nothing.
    assert_eq!(pairs.len(), 3);
    assert_eq!(pairs[0].genre, b"Rock".to_vec());
    assert_eq!(pairs[0].year, 1995);
    assert_eq!(pairs[1].genre, b"Jazz".to_vec());
    assert_eq!(pairs[1].year, 1995);
    assert_eq!(pairs[2].genre, b"Rock".to_vec());
    assert_eq!(pairs[2].year, 1996);
}

#[test]
fn executor_prune_helpers() {
    let entries = vec![
        EntrySnapshot { name: b"empty1".to_vec(), is_dir: true, is_empty: true },
        EntrySnapshot { name: b"full".to_vec(), is_dir: true, is_empty: false },
        EntrySnapshot { name: b"t.mp3".to_vec(), is_dir: false, is_empty: false },
        EntrySnapshot { name: b"empty2".to_vec(), is_dir: true, is_empty: true },
    ];
    assert_eq!(empty_subdir_indices(&entries), vec![0, 3]);
    assert!(any_subdir_left(&entries));
    let flat = vec![
        EntrySnapshot { name: b"t.mp3".to_vec(), is_dir: false, is_empty: false },
        EntrySnapshot { name: b"gone".to_vec(), is_dir: true, is_empty: true },
    ];
    assert!(!any_subdir_left(&flat));
}

#[test]
fn full_run_relocates_album_and_marks_it_moved() {
    // Root `Music/Rock-1990/AlbumA/track1.mp3`, tag year 1995: after a full
    // run AlbumA is bound for `Rock-1995/AlbumA` and its record is moved.
    let root = b"/m/Music".to_vec();
    let tree = vec![dir(b"Rock-1990", vec![dir(b"AlbumA", vec![file(b"track1.mp3")])])];
    let out = scan_collection(&tree, &root).unwrap();
    let mut store = out.records;
    assert_eq!(store.len(), 2);

    // Year Resolver: one probe per pending record, persisted one by one.
    let pending = select_pending(&store, &root);
    assert_eq!(pending.len(), 2);
    for idx in pending {
        let probe = if store[idx].path == vec![b"Rock-1990".to_vec(), b"AlbumA".to_vec()] {
            Probe::Directory(vec![ChildEntry {
                name: b"track1.mp3".to_vec(),
                tag: TagOutcome::Tag { year: Some(1995), date_text: None },
            }])
        } else {
            // The top folder sees one child, the AlbumA subdirectory.
            Probe::Directory(vec![ChildEntry {
                name: b"AlbumA".to_vec(),
                tag: TagOutcome::NoTag,
            }])
        };
        let name = store[idx].path.last().unwrap().clone();
        let y = resolve_probe(&name, &probe).unwrap();
        set_year(&mut store, idx, y);
    }
    assert_eq!(store[0].year, YearState::Resolved(1995));
    assert_eq!(store[1].year, YearState::Unknown);

    // Folder Materializer: exactly one destination folder.
    let pairs = folders_to_create(&store, &root);
    assert_eq!(pairs.len(), 1);
    assert_eq!(dest_folder_name(&pairs[0].genre, pairs[0].year), b"Rock-1995".to_vec());

    // Move Executor: only AlbumA is selected; it has no subdirectory left
    // and a clean destination, so it moves under its own name.
    let order = select_movable(&store, &root);
    assert_eq!(order, vec![0]);
    let obs = MoveObs::Dir { has_subdir: false, dest_taken: false };
    let step = plan_move(&b"AlbumA".to_vec(), &obs, 12345);
    match step {
        MoveStep::MoveDirAs { name } => assert_eq!(name, b"AlbumA".to_vec()),
        _ => panic!("expected a directory move"),
    }
    mark_moved(&mut store, 0);
    assert!(store[0].moved);

    // A second run finds nothing left to move: the album is marked and the
    // top folder never had a plausible year.
    assert!(select_movable(&store, &root).is_empty());
    assert!(select_pending(&store, &root).is_empty());
}
