use fileset::lookup::IDLookup;

fn p(parts: &[&str]) -> Vec<String> {
    parts.iter().map(|s| s.to_string()).collect()
}

#[test]
fn insert_nodes() {
    let mut lookup = IDLookup::new();

    lookup.add_file(&p(&["folder1", "subfolder1", "file1"]), (1, 13), 1);
    lookup.add_file(&p(&["folder1", "subfolder1", "file2"]), (1, 12), 1);
    lookup.add_file(&p(&["folder1", "subfolder2", "file3"]), (1, 11), 1);
    lookup.add_file(&p(&["folder2", "subfolder1", "file4"]), (1, 10), 1);
    lookup.add_file(&p(&["folder2", "file5"]), (1, 9), 1);
    lookup.add_file(&p(&["file6"]), (1, 8), 1);
    assert_eq!(lookup.get_id_for(&p(&["folder1", "subfolder1", "file1"])), Some((1, 13)));
    assert_eq!(lookup.get_id_for(&p(&["folder1", "subfolder1", "file2"])), Some((1, 12)));
    assert_eq!(lookup.get_id_for(&p(&["folder1", "subfolder2", "file3"])), Some((1, 11)));
    assert_eq!(lookup.get_id_for(&p(&["folder2", "subfolder1", "file4"])), Some((1, 10)));
    assert_eq!(lookup.get_id_for(&p(&["folder2", "file5"])), Some((1, 9)));
    assert_eq!(lookup.get_id_for(&p(&["file6"])), Some((1, 8)));
    assert_eq!(lookup.get_id_for(&p(&["file1"])), None);
    assert_eq!(lookup.get_id_for(&p(&["file5"])), None);
    assert_eq!(lookup.get_id_for(&p(&["folder2", "subfolder1", "file5"])), None);
    assert_eq!(
        lookup.get_id_for(&p(&["folder2", "subfolder1", "subsubfolder1", "file5"])),
        None
    );
    assert_eq!(
        lookup.add_file(&p(&["folder1", "subfolder1", "file1"]), (1, 14), 1),
        "file1(site 1)".to_string()
    );
    assert_eq!(
        lookup.add_file(&p(&["folder1", "subfolder1", "file1"]), (1, 15), 1),
        "file1(site 1)(site 1)".to_string()
    );
    assert_eq!(
        lookup.add_file(&p(&["folder1", "subfolder1", "file1"]), (2, 16), 2),
        "file1(site 2)".to_string()
    );
}

#[test]
fn remove_nodes() {
    let mut lookup = IDLookup::new();
    lookup.add_file(&p(&["folder1", "subfolder1", "file1"]), (1, 13), 1);
    lookup.add_file(&p(&["folder1", "subfolder1", "file2"]), (1, 12), 1);
    lookup.add_file(&p(&["folder1", "subfolder2", "file3"]), (1, 11), 1);
    lookup.add_file(&p(&["folder2", "subfolder1", "file4"]), (1, 10), 1);
    lookup.add_file(&p(&["folder2", "file5"]), (1, 9), 1);
    lookup.add_file(&p(&["file6"]), (1, 8), 1);
    assert_eq!(lookup.remove_file(&p(&["folder1", "subfolder1", "file1"])), Some((1, 13)));
    assert_eq!(lookup.get_id_for(&p(&["folder1", "subfolder1", "file2"])), Some((1, 12)));
    assert_eq!(lookup.remove_file(&p(&["file6"])), Some((1, 8)));
    assert_eq!(lookup.get_id_for(&p(&["folder1", "subfolder1", "file2"])), Some((1, 12)));
    assert_eq!(lookup.remove_file(&p(&["folder1", "subfolder1", "file2"])), Some((1, 12)));
    lookup.add_file(&p(&["folder1", "subfolder1", "file1"]), (1, 16), 1);
    assert_eq!(lookup.get_id_for(&p(&["folder1", "subfolder1", "file1"])), Some((1, 16)));
    assert_eq!(lookup.remove_file(&p(&["folder1", "subfolder1", "file1"])), Some((1, 16)));
}

#[test]
fn remove_folders() {
    let mut lookup = IDLookup::new();

    lookup.add_file(&p(&["folder1", "subfolder1", "file1"]), (1, 13), 1);
    lookup.add_file(&p(&["folder1", "subfolder1", "file2"]), (1, 12), 1);
    lookup.add_file(&p(&["folder1", "subfolder2", "file3"]), (1, 11), 1);
    lookup.add_file(&p(&["folder2", "subfolder1", "file4"]), (1, 10), 1);
    lookup.add_file(&p(&["folder2", "file5"]), (1, 9), 1);
    lookup.add_file(&p(&["file6"]), (1, 8), 1);

    let remove_list = lookup.remove_folder(&p(&["folder1", "subfolder1"]));
    assert!(remove_list.contains(&(1, 12)));
    assert!(remove_list.contains(&(1, 13)));
    assert_eq!(remove_list.len(), 2);
    assert_eq!(lookup.get_id_for(&p(&["folder1", "subfolder1", "file1"])), None);
    assert_eq!(lookup.get_id_for(&p(&["folder1", "subfolder1", "file2"])), None);
    assert_eq!(lookup.get_id_for(&p(&["folder1", "subfolder2", "file3"])), Some((1, 11)));
    assert_eq!(lookup.remove_folder(&p(&["folder1"])), vec![(1, 11)]);
    assert_eq!(lookup.get_id_for(&p(&["folder1", "subfolder1", "file1"])), None);
    assert_eq!(lookup.get_id_for(&p(&["folder1", "subfolder1", "file2"])), None);
    assert_eq!(lookup.get_id_for(&p(&["folder1", "subfolder2", "file3"])), None);

    assert_eq!(lookup.get_id_for(&p(&["folder2", "subfolder1", "file4"])), Some((1, 10)));
    assert_eq!(lookup.get_id_for(&p(&["folder2", "file5"])), Some((1, 9)));
    assert_eq!(lookup.get_id_for(&p(&["file6"])), Some((1, 8)));
    assert_eq!(lookup.get_id_for(&p(&["file1"])), None);
    assert_eq!(lookup.get_id_for(&p(&["file5"])), None);
    assert_eq!(lookup.get_id_for(&p(&["folder2", "subfolder1", "file5"])), None);
    assert_eq!(
        lookup.get_id_for(&p(&["folder2", "subfolder1", "subsubfolder1", "file5"])),
        None
    );
    assert_eq!(
        lookup.add_file(&p(&["folder1", "subfolder1", "file1"]), (1, 14), 1),
        "file1".to_string()
    );
    assert_eq!(
        lookup.add_file(&p(&["folder1", "subfolder1", "file1"]), (1, 15), 1),
        "file1(site 1)".to_string()
    );
    assert_eq!(
        lookup.add_file(&p(&["folder1", "subfolder1", "file1"]), (2, 16), 2),
        "file1(site 2)".to_string()
    );
}
