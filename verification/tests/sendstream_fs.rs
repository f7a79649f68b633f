use sendstream_fs::Command;
use sendstream_fs::DirRecord;
use sendstream_fs::Entry;
use sendstream_fs::Error;
use sendstream_fs::Extent;
use sendstream_fs::File;
use sendstream_fs::Filesystem;
use sendstream_fs::Metadata;
use sendstream_fs::Subvol;
use sendstream_fs::Subvols;

fn test_file() -> File {
    File {
        extents: vec![
            (
                0,
                Extent::Owned {
                    data: b"Lorem ipsum".to_vec(),
                },
            ),
            (
                "Lorem ipsum".len(),
                Extent::Owned {
                    data: b" dolor sit amet".to_vec(),
                },
            ),
        ],
        meta: Metadata {
            mode: 0o444,
            uid: 0,
            gid: 0,
            xattrs: vec![],
        },
    }
}

#[test]
fn to_bytes() {
    let f = test_file();
    assert_eq!(f.to_bytes(), b"Lorem ipsum dolor sit amet".to_vec(), "{f:?}");
}

#[test]
fn cloning() {
    let f = test_file();
    let extents = f.clone(0, 5);
    let mut f2 = File::new_empty();
    for ex in extents {
        f2.write(ex);
    }
    assert_eq!(
        std::str::from_utf8(&f2.to_bytes()).expect("valid"),
        "Lorem",
        "{f2:?}"
    );
}

#[test]
fn cloning_clips_to_overlap() {
    let f = test_file();
    let extents = f.clone(5, 20);
    let mut f2 = File::new_empty();
    for ex in extents {
        f2.write(ex);
    }
    assert_eq!(f2.to_bytes(), b" ipsum dolor si".to_vec());
    // a range past the extents yields no pieces at all
    assert!(f.clone(26, 30).is_empty());
}

#[test]
fn cloned_pieces_remember_their_source_range() {
    let f = test_file();
    let extents = f.clone(0, 12);
    assert_eq!(extents.len(), 2);
    match &extents[0] {
        Extent::Cloned {
            src_start,
            src_end,
            data,
        } => {
            assert_eq!((*src_start, *src_end), (0, 11));
            assert_eq!(data, &b"Lorem ipsum".to_vec());
        }
        other => panic!("expected a cloned piece, got {other:?}"),
    }
    match &extents[1] {
        Extent::Cloned {
            src_start,
            src_end,
            data,
        } => {
            assert_eq!((*src_start, *src_end), (11, 12));
            assert_eq!(data, &b" ".to_vec());
        }
        other => panic!("expected a cloned piece, got {other:?}"),
    }
}

#[test]
fn builder_defaults_and_setters() {
    let f = File::new_empty();
    assert!(f.is_empty());
    assert_eq!(f.len(), 0);
    assert_eq!(f.meta.mode, 0o444);
    assert_eq!(f.meta.uid, 0);
    assert_eq!(f.meta.gid, 0);

    let f = File::builder()
        .contents(b"hi".to_vec())
        .mode(0o600)
        .uid(1)
        .gid(2)
        .build();
    assert!(!f.is_empty());
    assert_eq!(f.len(), 2);
    assert_eq!(f.to_bytes(), b"hi".to_vec());
    assert_eq!(f.meta.mode, 0o600);
    assert_eq!(f.meta.uid, 1);
    assert_eq!(f.meta.gid, 2);
}

fn demo_records() -> Vec<DirRecord> {
    vec![
        DirRecord {
            relpath: String::new(),
            is_dir: true,
            is_symlink: false,
            mode: 0o555,
            uid: 0,
            gid: 0,
            xattrs: vec![],
            contents: vec![],
        },
        DirRecord {
            relpath: "a".to_string(),
            is_dir: true,
            is_symlink: false,
            mode: 0o755,
            uid: 10,
            gid: 20,
            xattrs: vec![(b"user.demo".to_vec(), b"1".to_vec())],
            contents: vec![],
        },
        DirRecord {
            relpath: "a/f".to_string(),
            is_dir: false,
            is_symlink: false,
            mode: 0o644,
            uid: 10,
            gid: 20,
            xattrs: vec![],
            contents: b"hello".to_vec(),
        },
    ]
}

#[test]
fn import_round_trip() {
    let fs1 = Filesystem::from_records(demo_records()).expect("import");
    let fs2 = Filesystem::from_records(demo_records()).expect("import");
    assert!(fs1.tree_eq(&fs2), "{fs1:?} vs {fs2:?}");
    assert!(fs2.tree_eq(&fs1));
    match fs1.get(&"a/f".to_string()) {
        Some(Entry::File(f)) => {
            assert_eq!(f.to_bytes(), b"hello".to_vec());
            assert_eq!(f.meta.mode, 0o644);
        }
        other => panic!("expected a file, got {other:?}"),
    }
}

#[test]
fn import_rejects_symlinks() {
    let mut records = demo_records();
    records.push(DirRecord {
        relpath: "a/link".to_string(),
        is_dir: false,
        is_symlink: true,
        mode: 0o777,
        uid: 0,
        gid: 0,
        xattrs: vec![],
        contents: vec![],
    });
    match Filesystem::from_records(records) {
        Err(Error::UnsupportedEntry(p)) => assert_eq!(p, "a/link"),
        other => panic!("expected UnsupportedEntry, got {other:?}"),
    }
}

#[test]
fn rename_moves_entry() {
    let mut subvols = Subvols::new();
    let batch = vec![
        Command::SubvolStart { id: 1 },
        Command::Mkfile {
            path: "/a".to_string(),
        },
        Command::Rename {
            from: "/a".to_string(),
            to: "/b".to_string(),
        },
    ];
    subvols.receive(&batch).expect("receive");
    let sv = subvols.get(1).expect("subvol");
    assert!(matches!(sv.fs.get(&"/b".to_string()), Some(Entry::File(_))));
    assert!(sv.fs.get(&"/a".to_string()).is_none());
    // exactly the root and /b remain
    assert_eq!(sv.fs.entries.len(), 2);
}

#[test]
fn rename_missing_source_fails() {
    let mut subvols = Subvols::new();
    let batch = vec![
        Command::SubvolStart { id: 1 },
        Command::Rename {
            from: "/a".to_string(),
            to: "/b".to_string(),
        },
    ];
    match subvols.receive(&batch) {
        Err(Error::MissingEntry(p)) => assert_eq!(p, "/a"),
        other => panic!("expected MissingEntry, got {other:?}"),
    }
    // the failed batch left nothing behind
    assert!(subvols.get(1).is_none());
    assert_eq!(subvols.0.len(), 0);
}

#[test]
fn snapshot_lineage() {
    let u1: u128 = 0x0fbf2b5f;
    let u2: u128 = 0xed2c87d3;
    let mut subvols = Subvols::new();
    subvols
        .receive(&vec![
            Command::SubvolStart { id: u1 },
            Command::Mkdir {
                path: "/x".to_string(),
            },
        ])
        .expect("subvol batch");
    subvols
        .receive(&vec![
            Command::SnapshotStart {
                id: u2,
                parent_id: u1,
            },
            Command::Chmod {
                path: "/x".to_string(),
                mode: 0o700,
            },
        ])
        .expect("snapshot batch");

    let parent = subvols.get(u1).expect("parent");
    assert_eq!(parent.parent_uuid, None);
    match parent.fs.get(&"/x".to_string()) {
        Some(Entry::Directory(d)) => assert_eq!(d.meta.mode, 0o555, "parent must be unchanged"),
        other => panic!("expected a directory, got {other:?}"),
    }

    let snap = subvols.get(u2).expect("snapshot");
    assert_eq!(snap.parent_uuid, Some(u1));
    match snap.fs.get(&"/x".to_string()) {
        Some(Entry::Directory(d)) => assert_eq!(d.meta.mode, 0o700),
        other => panic!("expected a directory, got {other:?}"),
    }
}

#[test]
fn missing_parent_leaves_ledger_unchanged() {
    let mut subvols = Subvols::new();
    let batch = vec![Command::SnapshotStart {
        id: 9,
        parent_id: 42,
    }];
    match subvols.receive(&batch) {
        Err(Error::MissingParent(id)) => assert_eq!(id, 42),
        other => panic!("expected MissingParent, got {other:?}"),
    }
    assert_eq!(subvols.0.len(), 0);
    assert!(subvols.get(9).is_none());
}

#[test]
fn metadata_mutation_is_local() {
    let mut subvols = Subvols::new();
    let batch = vec![
        Command::SubvolStart { id: 1 },
        Command::Mkdir {
            path: "/d".to_string(),
        },
        Command::Mkfile {
            path: "/d/f".to_string(),
        },
        Command::Chmod {
            path: "/d".to_string(),
            mode: 0o700,
        },
        Command::Chown {
            path: "/d".to_string(),
            uid: 5,
            gid: 6,
        },
    ];
    subvols.receive(&batch).expect("receive");
    let sv = subvols.get(1).expect("subvol");
    match sv.fs.get(&"/d".to_string()) {
        Some(Entry::Directory(d)) => {
            assert_eq!(d.meta.mode, 0o700);
            assert_eq!(d.meta.uid, 5);
            assert_eq!(d.meta.gid, 6);
        }
        other => panic!("expected a directory, got {other:?}"),
    }
    match sv.fs.get(&"/d/f".to_string()) {
        Some(Entry::File(f)) => {
            assert_eq!(f.meta.mode, 0o444, "descendant metadata must be untouched");
            assert_eq!(f.meta.uid, 0);
            assert_eq!(f.meta.gid, 0);
        }
        other => panic!("expected a file, got {other:?}"),
    }
}

#[test]
fn chmod_missing_path_fails() {
    let mut subvols = Subvols::new();
    let batch = vec![
        Command::SubvolStart { id: 1 },
        Command::Chmod {
            path: "/nope".to_string(),
            mode: 0o700,
        },
    ];
    match subvols.receive(&batch) {
        Err(Error::MissingEntry(p)) => assert_eq!(p, "/nope"),
        other => panic!("expected MissingEntry, got {other:?}"),
    }
    assert_eq!(subvols.0.len(), 0);
}

#[test]
fn batch_must_start_with_subvol_or_snapshot() {
    let mut subvols = Subvols::new();
    assert!(matches!(
        subvols.receive(&vec![]),
        Err(Error::InvariantViolated(_))
    ));
    assert!(matches!(
        subvols.receive(&vec![Command::Mkdir {
            path: "/x".to_string(),
        }]),
        Err(Error::InvariantViolated(_))
    ));
    assert_eq!(subvols.0.len(), 0);
}

#[test]
fn clone_command_copies_bytes_between_files() {
    // seed a subvolume whose file /src already has content, then replay a
    // clone of its first five bytes into /dst
    let mut seeded = Filesystem::new();
    seeded.insert("/src".to_string(), Entry::File(test_file()));
    seeded.insert("/dst".to_string(), Entry::File(File::new_empty()));
    let mut subvols = Subvols::new();
    subvols.0.push((
        1,
        Subvol {
            parent_uuid: None,
            fs: seeded,
        },
    ));

    let batch = vec![
        Command::SnapshotStart {
            id: 2,
            parent_id: 1,
        },
        Command::Clone {
            src_path: "/src".to_string(),
            src_start: 0,
            src_end: 5,
            dst_path: "/dst".to_string(),
            dst_offset: 0,
        },
    ];
    subvols.receive(&batch).expect("clone batch");
    let snap = subvols.get(2).expect("snapshot");
    match snap.fs.get(&"/dst".to_string()) {
        Some(Entry::File(f)) => assert_eq!(f.to_bytes(), b"Lorem".to_vec()),
        other => panic!("expected a file, got {other:?}"),
    }
    // the parent's own /dst is untouched
    let parent = subvols.get(1).expect("parent");
    match parent.fs.get(&"/dst".to_string()) {
        Some(Entry::File(f)) => assert_eq!(f.to_bytes(), b"".to_vec()),
        other => panic!("expected a file, got {other:?}"),
    }
}

#[test]
fn clone_command_checks_kinds_and_offset() {
    let mut subvols = Subvols::new();
    let batch = vec![
        Command::SubvolStart { id: 1 },
        Command::Mkdir {
            path: "/d".to_string(),
        },
        Command::Mkfile {
            path: "/f".to_string(),
        },
        Command::Clone {
            src_path: "/d".to_string(),
            src_start: 0,
            src_end: 1,
            dst_path: "/f".to_string(),
            dst_offset: 0,
        },
    ];
    match subvols.receive(&batch) {
        Err(Error::WrongEntryKind(p)) => assert_eq!(p, "/d"),
        other => panic!("expected WrongEntryKind, got {other:?}"),
    }

    let batch = vec![
        Command::SubvolStart { id: 1 },
        Command::Mkfile {
            path: "/a".to_string(),
        },
        Command::Mkfile {
            path: "/b".to_string(),
        },
        Command::Clone {
            src_path: "/a".to_string(),
            src_start: 0,
            src_end: 0,
            dst_path: "/b".to_string(),
            dst_offset: 5,
        },
    ];
    assert!(matches!(
        subvols.receive(&batch),
        Err(Error::InvariantViolated(_))
    ));

    let batch = vec![
        Command::SubvolStart { id: 1 },
        Command::Mkfile {
            path: "/b".to_string(),
        },
        Command::Clone {
            src_path: "/missing".to_string(),
            src_start: 0,
            src_end: 1,
            dst_path: "/b".to_string(),
            dst_offset: 0,
        },
    ];
    match subvols.receive(&batch) {
        Err(Error::MissingEntry(p)) => assert_eq!(p, "/missing"),
        other => panic!("expected MissingEntry, got {other:?}"),
    }
}

#[test]
fn unrecognized_commands_are_skipped() {
    let mut subvols = Subvols::new();
    let batch = vec![
        Command::SubvolStart { id: 1 },
        Command::Other {
            name: "utimes".to_string(),
        },
        Command::Mkdir {
            path: "/x".to_string(),
        },
    ];
    subvols.receive(&batch).expect("receive");
    let sv = subvols.get(1).expect("subvol");
    assert!(sv.fs.get(&"/x".to_string()).is_some());
}

#[test]
fn receiving_the_same_identifier_twice_overwrites() {
    let mut subvols = Subvols::new();
    subvols
        .receive(&vec![
            Command::SubvolStart { id: 7 },
            Command::Mkdir {
                path: "/x".to_string(),
            },
        ])
        .expect("first");
    subvols
        .receive(&vec![Command::SubvolStart { id: 7 }])
        .expect("second");
    assert_eq!(subvols.0.len(), 1);
    let sv = subvols.get(7).expect("subvol");
    assert!(sv.fs.get(&"/x".to_string()).is_none());
}

#[test]
fn end_to_end_replay_matches_import() {
    let u1: u128 = 0x0fbf2b5f_ff82_a748;
    let u2: u128 = 0xed2c87d3_12e3_c549;
    // reference tree, as a directory walker would report the fixture
    let records = vec![
        DirRecord {
            relpath: String::new(),
            is_dir: true,
            is_symlink: false,
            mode: 0o555,
            uid: 0,
            gid: 0,
            xattrs: vec![],
            contents: vec![],
        },
        DirRecord {
            relpath: "x".to_string(),
            is_dir: true,
            is_symlink: false,
            mode: 0o700,
            uid: 5,
            gid: 6,
            xattrs: vec![],
            contents: vec![],
        },
    ];
    let reference = Filesystem::from_records(records).expect("import");

    let mut subvols = Subvols::new();
    subvols
        .receive(&vec![
            Command::SubvolStart { id: u1 },
            Command::Mkdir {
                path: "x".to_string(),
            },
            Command::Chmod {
                path: "x".to_string(),
                mode: 0o700,
            },
            Command::Chown {
                path: "x".to_string(),
                uid: 5,
                gid: 6,
            },
        ])
        .expect("subvol batch");
    subvols
        .receive(&vec![Command::SnapshotStart {
            id: u2,
            parent_id: u1,
        }])
        .expect("snapshot batch");

    let sv1 = subvols.get(u1).expect("subvol");
    let sv2 = subvols.get(u2).expect("snapshot");
    assert!(sv1.fs.tree_eq(&reference), "{sv1:?} vs {reference:?}");
    assert!(sv2.fs.tree_eq(&reference), "{sv2:?} vs {reference:?}");
    assert!(sv1.fs.tree_eq(&sv2.fs));
    assert_eq!(sv2.parent_uuid, Some(u1));
}

#[test]
fn extent_for_byte_finds_the_covering_extent() {
    let f = test_file();
    match f.extent_for_byte(0) {
        Some((start, Extent::Owned { data })) => {
            assert_eq!(start, 0);
            assert_eq!(data, &b"Lorem ipsum".to_vec());
        }
        other => panic!("expected the first extent, got {other:?}"),
    }
    match f.extent_for_byte(12) {
        Some((start, Extent::Owned { data })) => {
            assert_eq!(start, 11);
            assert_eq!(data, &b" dolor sit amet".to_vec());
        }
        other => panic!("expected the second extent, got {other:?}"),
    }
    // one past the last byte still names the extent it borders
    assert!(f.extent_for_byte(26).is_some());
    assert!(f.extent_for_byte(27).is_none());
    assert!(File::new_empty().extent_for_byte(0).is_none());
}
