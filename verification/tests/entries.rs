use diskscan::{Arena, DirEntry, EntryPath, Id};

fn new_dir(arena: &mut Arena<DirEntry>, name: &str) -> Id {
    new_sized_dir(arena, name, 0)
}

fn new_sized_dir(arena: &mut Arena<DirEntry>, name: &str, size: i64) -> Id {
    let id = arena.put(DirEntry::new_dir(name.to_string()));
    DirEntry::set_size(arena, id, size);
    id
}

fn listed(arena: &Arena<DirEntry>, id: Id) -> Vec<(String, i64)> {
    arena
        .get(id)
        .iter()
        .iter()
        .map(|&kid| {
            let e = arena.get(kid);
            (e.get_name().to_string(), e.get_size())
        })
        .collect()
}

#[test]
fn add_child() {
    let mut arena = Arena::default();

    let root = new_dir(&mut arena, "root");
    let dir1 = new_dir(&mut arena, "dir1");
    DirEntry::add_child(&mut arena, root, dir1);

    let dir2 = new_dir(&mut arena, "dir2");
    let dir21 = new_sized_dir(&mut arena, "dir21", 5);
    let dir22 = new_sized_dir(&mut arena, "dir22", 15);
    let dir23 = new_sized_dir(&mut arena, "dir23", 10);
    DirEntry::add_child(&mut arena, dir2, dir21);
    DirEntry::add_child(&mut arena, dir2, dir22);
    DirEntry::add_child(&mut arena, dir2, dir23);
    DirEntry::add_child(&mut arena, root, dir2);

    let dir4 = new_sized_dir(&mut arena, "dir4", 5);
    DirEntry::add_child(&mut arena, root, dir4);

    let dir3 = new_sized_dir(&mut arena, "dir3", 5);
    DirEntry::add_child(&mut arena, root, dir3);

    assert_eq!(arena.get(root).get_size(), 40);
    let entries = listed(&arena, root);
    assert_eq!(
        entries,
        vec![
            ("dir2".to_string(), 30),
            ("dir3".to_string(), 5),
            ("dir4".to_string(), 5),
            ("dir1".to_string(), 0),
        ]
    );

    assert_eq!(
        listed(&arena, dir2),
        vec![
            ("dir22".to_string(), 15),
            ("dir23".to_string(), 10),
            ("dir21".to_string(), 5),
        ]
    );
}

#[test]
fn compare_path() {
    let mut arena = Arena::default();

    let root = new_dir(&mut arena, "root");
    let dir1 = new_dir(&mut arena, "dir1");
    let dir2 = new_dir(&mut arena, "dir2");
    DirEntry::add_child(&mut arena, dir1, dir2);
    DirEntry::add_child(&mut arena, root, dir1);

    let mut path = EntryPath::new("root".to_string());
    assert!(arena.get(root).compare_path(&arena, &path));
    path.join("dir1".to_string());
    assert!(arena.get(dir1).compare_path(&arena, &path));
    path.join("dir2".to_string());
    assert!(arena.get(dir2).compare_path(&arena, &path));
    assert_eq!(arena.get(dir2).get_path(&arena), path);
}

#[test]
fn find_child() {
    let mut arena = Arena::default();
    let dirs = vec![
        ("dir2", 7),
        ("dir1", 6),
        ("dir3", 4),
        ("dir4", 4),
        ("dir5", 2),
    ];
    let children: Vec<_> = dirs
        .iter()
        .map(|&(name, size)| new_sized_dir(&mut arena, name, size))
        .collect();

    for &(search_name, _) in &dirs {
        for search_size in 1..=8 {
            match DirEntry::find_child(&children, &arena, search_name, search_size) {
                Ok(pos) => assert_eq!(dirs[pos], (search_name, search_size)),
                Err(pos) if pos < dirs.len() => {
                    let (found_name, found_size) = dirs[pos];
                    if search_size == found_size {
                        assert!(search_name < found_name);
                    } else {
                        assert!(search_size > found_size);
                    }
                }
                Err(_) => {
                    let &(last_name, last_size) = dirs.last().unwrap();
                    if search_size == last_size {
                        assert!(search_name > last_name);
                    } else {
                        assert!(search_size < last_size);
                    }
                }
            }
        }
    }
}

#[test]
fn child_size_changed() {
    let mut arena = Arena::default();

    let dirs = vec![
        ("dir1", 6),
        ("dir2", 5),
        ("dir3", 3),
        ("dir4", 3),
        ("dir5", 2),
    ];

    let root = new_dir(&mut arena, "root");
    for &(name, size) in &dirs {
        let id = new_sized_dir(&mut arena, name, size);
        DirEntry::add_child(&mut arena, root, id);
    }

    for (name, _) in dirs {
        let dir = arena
            .get(root)
            .iter()
            .iter()
            .copied()
            .find(|&id| arena.get(id).get_name() == name)
            .unwrap();
        let initial_size = arena.get(dir).get_size();

        for new_size in 1..=7 {
            for size in [new_size, initial_size] {
                DirEntry::on_child_size_changed(&mut arena, root, dir, size);

                let children = arena.get(root).iter().clone();
                let mut sorted = children.clone();
                sorted.sort_by(|&a, &b| {
                    let a = arena.get(a);
                    let b = arena.get(b);
                    b.get_size()
                        .cmp(&a.get_size())
                        .then(a.get_name().cmp(b.get_name()))
                });
                assert_eq!(children, sorted);
            }
        }
    }
}

#[test]
fn size_triggered_resort() {
    let mut arena = Arena::default();
    let root = new_dir(&mut arena, "root");
    let mut ids = Vec::new();
    for &(name, size) in &[("d1", 6i64), ("d2", 5), ("d3", 3), ("d4", 3), ("d5", 2)] {
        let id = new_sized_dir(&mut arena, name, size);
        DirEntry::add_child(&mut arena, root, id);
        ids.push(id);
    }
    DirEntry::on_child_size_changed(&mut arena, root, ids[3], 7);
    let names: Vec<String> = arena
        .get(root)
        .iter()
        .iter()
        .map(|&id| arena.get(id).get_name().to_string())
        .collect();
    assert_eq!(names, vec!["d4", "d1", "d2", "d3", "d5"]);
    assert_eq!(arena.get(ids[3]).get_size(), 7);
    assert_eq!(arena.get(root).get_size(), 23);
}

#[test]
fn mark_counts_children() {
    let mut arena = Arena::default();
    let root = new_dir(&mut arena, "root");
    let a = new_sized_dir(&mut arena, "a", 4);
    let b = new_sized_dir(&mut arena, "b", 6);
    DirEntry::add_child(&mut arena, root, a);
    DirEntry::add_child(&mut arena, root, b);
    let (count, total) = DirEntry::mark_children(&mut arena, root);
    assert_eq!(count, 2);
    assert_eq!(total, 10);
    let (count2, total2) = DirEntry::mark_children(&mut arena, a);
    assert_eq!(count2, 0);
    assert_eq!(total2, 0);
}

#[test]
fn mark_and_remove() {
    let mut arena = Arena::default();

    let root = new_dir(&mut arena, "root");
    let dir1 = new_dir(&mut arena, "dir1");
    let dir11 = new_sized_dir(&mut arena, "dir11", 15);
    let dir12 = new_sized_dir(&mut arena, "dir12", 25);
    let dir13 = new_sized_dir(&mut arena, "dir13", 10);
    let dir14 = new_sized_dir(&mut arena, "dir14", 10);
    let dir3 = new_sized_dir(&mut arena, "dir3", 45);
    DirEntry::add_child(&mut arena, root, dir1);
    DirEntry::add_child(&mut arena, dir1, dir11);
    DirEntry::add_child(&mut arena, dir1, dir12);
    DirEntry::add_child(&mut arena, dir1, dir13);
    DirEntry::add_child(&mut arena, dir1, dir14);
    DirEntry::add_child(&mut arena, root, dir3);

    let (dirs, dirs_size) = DirEntry::mark_children(&mut arena, dir1);
    assert_eq!(dirs, 4);
    assert_eq!(dirs_size, 60);

    arena.get_mut(dir11).unmark();
    arena.get_mut(dir12).unmark();

    let removed = DirEntry::remove_marked(&mut arena, dir1, 0);
    assert_eq!(removed.len(), 2);
    assert!(removed.contains(&dir13));
    assert!(removed.contains(&dir14));

    let new_dir1 = arena.get(dir1);
    assert_eq!(new_dir1.get_size(), 40);
    let left = new_dir1.iter();
    assert_eq!(left, &vec![dir12, dir11]);

    let root_kids = arena.get(root).iter();
    assert_eq!(root_kids, &vec![dir3, dir1]);
}
