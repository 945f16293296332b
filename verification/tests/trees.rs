use diskscan::{EntryPath, FileTree, ScanTask};

#[test]
fn fresh_tree_lookup() {
    let tree = FileTree::new("/data/mnt".to_string());
    let root_path = EntryPath::new("/data/mnt".to_string());
    assert!(tree.find_entry(&root_path).is_some());
    let missing = EntryPath::from("/data/mnt", "/data/mnt/dir1").unwrap();
    assert!(tree.find_entry(&missing).is_none());
    let stats = tree.stats();
    assert_eq!(stats.used_size, 0);
    assert_eq!(stats.files, 0);
    assert_eq!(stats.dirs, 0);
}

#[test]
fn coalesce_recursive_over_pending() {
    let p = EntryPath::new("/data".to_string());
    let mut queue: Vec<ScanTask> = Vec::new();
    ScanTask::merge_to_queue(
        &mut queue,
        ScanTask { path: p.clone(), recursive: false, reset_stopwatch: false },
    );
    ScanTask::merge_to_queue(
        &mut queue,
        ScanTask { path: p.clone(), recursive: true, reset_stopwatch: false },
    );
    assert_eq!(queue.len(), 1);
    assert!(queue[0].recursive);
    assert_eq!(queue[0].path, p);
}

#[test]
fn coalesce_keeps_siblings() {
    let a = EntryPath::from("/data", "/data/a").unwrap();
    let b = EntryPath::from("/data", "/data/b").unwrap();
    let inside_a = EntryPath::from("/data", "/data/a/x").unwrap();
    let mut queue: Vec<ScanTask> = Vec::new();
    ScanTask::merge_to_queue(
        &mut queue,
        ScanTask { path: b.clone(), recursive: false, reset_stopwatch: false },
    );
    ScanTask::merge_to_queue(
        &mut queue,
        ScanTask { path: inside_a.clone(), recursive: true, reset_stopwatch: false },
    );
    ScanTask::merge_to_queue(
        &mut queue,
        ScanTask { path: a.clone(), recursive: true, reset_stopwatch: false },
    );
    assert_eq!(queue.len(), 2);
    assert_eq!(queue[0].path, b);
    assert_eq!(queue[1].path, a);
}

#[test]
fn dot_components() {
    assert_eq!(
        EntryPath::from(".", "./.").unwrap().parts(),
        &vec![".".to_string()]
    );
    assert_eq!(
        EntryPath::from("/a", "/a/./b").unwrap().parts(),
        &vec!["/a".to_string(), "b".to_string()]
    );
    assert_eq!(
        EntryPath::from("./r", "./r/./x").unwrap().parts(),
        &vec!["./r".to_string(), "x".to_string()]
    );
}
