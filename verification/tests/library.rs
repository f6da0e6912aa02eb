use blobfetch::cleaner::CleanAction;
use blobfetch::cleaner::FsTree;
use blobfetch::cleaner::clean_plan;
use blobfetch::content::ChunkBuffer;
use blobfetch::content::validate_text;
use blobfetch::errors::StorageError;
use blobfetch::lister::Lister;
use blobfetch::model::Blob;
use blobfetch::model::BlobEntry;
use blobfetch::model::make_blob;
use blobfetch::path_map::base_name;
use blobfetch::path_map::join_path;
use blobfetch::path_map::map_parent_dir;
use blobfetch::path_map::map_path;
use blobfetch::pipeline::plan_materialize;
use blobfetch::selector::select_latest;

fn blob(name: &[u8], t: i64) -> BlobEntry {
    BlobEntry::Blob(Blob::new(name.to_vec(), t))
}

fn prefix_entry(p: &[u8]) -> BlobEntry {
    BlobEntry::BlobPrefix(p.to_vec())
}

#[test]
fn lister_accumulates_pages_in_order() {
    let mut lister = Lister::new();
    lister.add_page(vec![blob(b"p/a", 1), blob(b"p/b", 2)]);
    lister.add_page(vec![prefix_entry(b"p/sub"), blob(b"p/c", 3)]);
    let entries = lister.into_entries();
    assert_eq!(entries.len(), 4);
    match &entries[0] {
        BlobEntry::Blob(b) => assert_eq!(b.name, b"p/a".to_vec()),
        _ => panic!("expected a blob"),
    }
    match &entries[2] {
        BlobEntry::BlobPrefix(p) => assert_eq!(p, &b"p/sub".to_vec()),
        _ => panic!("expected a grouping prefix"),
    }
    match &entries[3] {
        BlobEntry::Blob(b) => {
            assert_eq!(b.name, b"p/c".to_vec());
            assert_eq!(b.last_updated, 3);
        },
        _ => panic!("expected a blob"),
    }
}

#[test]
fn lister_one_page_equals_many() {
    let mut split = Lister::new();
    split.add_page(vec![blob(b"x", 1)]);
    split.add_page(vec![blob(b"y", 2), blob(b"z", 3)]);
    split.add_page(vec![]);
    let mut single = Lister::new();
    single.add_page(vec![blob(b"x", 1), blob(b"y", 2), blob(b"z", 3)]);
    let a = split.into_entries();
    let b = single.into_entries();
    assert_eq!(a.len(), b.len());
    for (ea, eb) in a.iter().zip(b.iter()) {
        match (ea, eb) {
            (BlobEntry::Blob(x), BlobEntry::Blob(y)) => {
                assert_eq!(x.name, y.name);
                assert_eq!(x.last_updated, y.last_updated);
            },
            _ => panic!("expected blobs in both accumulations"),
        }
    }
}

#[test]
fn selector_first_of_tied_maximum_wins() {
    // Timestamps 5, 9, 9, 3; the two 9s are real objects tied for the
    // maximum, and the earlier of them must win.
    let entries = vec![
        blob(b"t1", 5),
        blob(b"t2", 9),
        blob(b"t3", 9),
        blob(b"t4", 3),
    ];
    let picked = select_latest(&entries).expect("a real object exists");
    assert_eq!(picked.name, b"t2".to_vec());
    assert_eq!(picked.last_updated, 9);
}

#[test]
fn selector_ignores_grouping_prefixes() {
    // The grouping prefix would win on any ordering mistake; it must never
    // be selected.
    let entries = vec![
        prefix_entry(b"folder/"),
        blob(b"folder/file", 4),
        prefix_entry(b"zzz/"),
    ];
    let picked = select_latest(&entries).expect("a real object exists");
    assert_eq!(picked.name, b"folder/file".to_vec());
    assert_eq!(picked.last_updated, 4);
}

#[test]
fn selector_empty_is_absence() {
    let entries: Vec<BlobEntry> = vec![];
    assert!(select_latest(&entries).is_none());
}

#[test]
fn selector_only_prefixes_is_absence() {
    let entries = vec![prefix_entry(b"a/"), prefix_entry(b"b/")];
    assert!(select_latest(&entries).is_none());
}

#[test]
fn make_blob_keeps_objects_and_drops_prefixes() {
    let kept = make_blob(blob(b"a", 7)).expect("a real object converts");
    assert_eq!(kept.name, b"a".to_vec());
    assert_eq!(kept.last_updated, 7);
    assert!(make_blob(prefix_entry(b"a/")).is_none());
}

#[test]
fn chunk_buffer_concatenates_in_arrival_order() {
    let mut buf = ChunkBuffer::new();
    buf.add_chunk(b"hel".to_vec());
    buf.add_chunk(b"".to_vec());
    buf.add_chunk(b"lo, ".to_vec());
    buf.add_chunk(b"world".to_vec());
    assert_eq!(buf.into_bytes(), b"hello, world".to_vec());
}

#[test]
fn chunk_buffer_empty_stream_is_empty() {
    let buf = ChunkBuffer::new();
    assert_eq!(buf.into_bytes(), Vec::<u8>::new());
}

#[test]
fn validate_text_passes_text_through_unchanged() {
    let bytes = "caf\u{e9} r\u{e9}sum\u{e9}\n".as_bytes().to_vec();
    let out = validate_text(bytes.clone()).expect("well-formed text passes");
    assert_eq!(out, bytes);
}

#[test]
fn validate_text_rejects_non_text() {
    let bytes = vec![0xff, 0xfe, 0x41];
    match validate_text(bytes) {
        Err(e) => assert!(e.is_decode()),
        Ok(_) => panic!("ill-formed bytes must be rejected"),
    }
}

#[test]
fn map_path_preserves_sub_directories() {
    assert_eq!(map_path(&b"a/b/c.txt".to_vec(), &b"R".to_vec()), b"R/a/b/c.txt".to_vec());
}

#[test]
fn map_path_plain_name() {
    assert_eq!(map_path(&b"c.txt".to_vec(), &b"R".to_vec()), b"R/c.txt".to_vec());
}

#[test]
fn map_path_empty_name_falls_back() {
    assert_eq!(map_path(&b"".to_vec(), &b"R".to_vec()), b"R/unknown".to_vec());
}

#[test]
fn map_path_trims_base_name() {
    assert_eq!(
        map_path(&b"logs/ report.csv \t".to_vec(), &b"R".to_vec()),
        b"R/logs/report.csv".to_vec()
    );
}

#[test]
fn map_path_whitespace_base_falls_back() {
    assert_eq!(map_path(&b"logs/  ".to_vec(), &b"R".to_vec()), b"R/logs/unknown".to_vec());
}

#[test]
fn map_path_trailing_slash_falls_back() {
    assert_eq!(map_path(&b"a/b/".to_vec(), &b"R".to_vec()), b"R/a/b/unknown".to_vec());
}

#[test]
fn selector_handles_pre_epoch_timestamps() {
    let entries = vec![blob(b"old", -9), blob(b"newer", -5), blob(b"oldest", -12)];
    let picked = select_latest(&entries).expect("a real object exists");
    assert_eq!(picked.name, b"newer".to_vec());
    assert_eq!(picked.last_updated, -5);
}

#[test]
fn map_path_distinct_names_map_apart() {
    let root = b"R".to_vec();
    let p1 = map_path(&b"a/b/c.txt".to_vec(), &root);
    let p2 = map_path(&b"a/c.txt".to_vec(), &root);
    let p3 = map_path(&b"c.txt".to_vec(), &root);
    assert_ne!(p1, p2);
    assert_ne!(p1, p3);
    assert_ne!(p2, p3);
}

#[test]
fn base_name_degenerate_mapping() {
    assert_eq!(base_name(&b"2024/01/report.csv".to_vec()), b"report.csv".to_vec());
    assert_eq!(base_name(&b"".to_vec()), b"unknown".to_vec());
}

#[test]
fn join_path_qualifies_a_name() {
    assert_eq!(join_path(&b"logs".to_vec(), &b"x.csv".to_vec()), b"logs/x.csv".to_vec());
}

#[test]
fn map_parent_dir_names_the_directory_to_create() {
    assert_eq!(
        map_parent_dir(&b"a/b/c.txt".to_vec(), &b"R".to_vec()),
        b"R/a/b/".to_vec()
    );
    assert_eq!(map_parent_dir(&b"c.txt".to_vec(), &b"R".to_vec()), b"R/".to_vec());
}

#[test]
fn plan_materialize_round_trips_content() {
    let bytes = b"hello\nworld\n".to_vec();
    let plan = plan_materialize(&b"logs/b.csv".to_vec(), &b"R".to_vec(), bytes.clone())
        .expect("text content materializes");
    assert_eq!(plan.content, bytes);
    assert_eq!(plan.file_path, b"R/logs/b.csv".to_vec());
    assert_eq!(plan.dir_path, b"R/logs/".to_vec());
}

#[test]
fn plan_materialize_rejects_non_text() {
    match plan_materialize(&b"x".to_vec(), &b"R".to_vec(), vec![0x80]) {
        Err(e) => assert!(e.is_decode()),
        Ok(_) => panic!("ill-formed bytes must not be materialized"),
    }
}

#[test]
fn clean_plan_removes_children_before_parent() {
    let entries = vec![
        FsTree::File(b"a.txt".to_vec()),
        FsTree::Dir(
            b"sub".to_vec(),
            vec![
                FsTree::File(b"b.txt".to_vec()),
                FsTree::Dir(b"deep".to_vec(), vec![FsTree::File(b"c.txt".to_vec())]),
            ],
        ),
        FsTree::File(b"d.txt".to_vec()),
    ];
    let plan = clean_plan(&b"blobs".to_vec(), &entries);
    assert_eq!(
        plan,
        vec![
            CleanAction::RemoveFile(b"blobs/a.txt".to_vec()),
            CleanAction::RemoveFile(b"blobs/sub/b.txt".to_vec()),
            CleanAction::RemoveFile(b"blobs/sub/deep/c.txt".to_vec()),
            CleanAction::RemoveDir(b"blobs/sub/deep".to_vec()),
            CleanAction::RemoveDir(b"blobs/sub".to_vec()),
            CleanAction::RemoveFile(b"blobs/d.txt".to_vec()),
        ]
    );
}

#[test]
fn clean_plan_idempotent_on_emptied_root() {
    // After one clean the root has no children; planning again over the
    // empty listing asks for nothing, so the state stays the same.
    let plan = clean_plan(&b"blobs".to_vec(), &vec![]);
    assert!(plan.is_empty());
}

#[test]
fn end_to_end_latest_object_is_fetched_and_placed() {
    // Container holds logs/a.csv (older) and logs/b.csv (newer); opening with
    // prefix logs/ selects logs/b.csv and writes it under <root>/logs/b.csv.
    let mut lister = Lister::new();
    lister.add_page(vec![blob(b"logs/a.csv", 100)]);
    lister.add_page(vec![blob(b"logs/b.csv", 200)]);
    let entries = lister.into_entries();

    let picked = select_latest(&entries).expect("the listing holds real objects");
    assert_eq!(picked.name, b"logs/b.csv".to_vec());

    let mut buf = ChunkBuffer::new();
    buf.add_chunk(b"time,msg\n".to_vec());
    buf.add_chunk(b"1,ok\n".to_vec());
    let bytes = buf.into_bytes();

    let plan = plan_materialize(&picked.name, &b"root".to_vec(), bytes.clone())
        .expect("text content materializes");
    assert_eq!(plan.file_path, b"root/logs/b.csv".to_vec());
    assert_eq!(plan.content, b"time,msg\n1,ok\n".to_vec());
    assert_eq!(plan.content, bytes);
}
