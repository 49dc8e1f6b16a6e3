use lavaxemu_core::VirtualFileSystem;

#[test]
fn confines_paths_to_the_virtual_root() {
    let mut fs = VirtualFileSystem::default();
    assert!(fs.create_directory("/games/save"));
    assert!(fs.change_directory("/games/save"));
    assert!(!fs.import_file("../../../escape.dat", vec![1]));
    assert!(fs.import_file("slot.dat", vec![1, 2, 3]));
    assert_eq!(fs.file("/games/save/slot.dat"), Some([1, 2, 3].as_slice()));
}

#[test]
fn supports_read_write_and_append_modes() {
    let mut fs = VirtualFileSystem::default();
    fs.import_file("save.dat", vec![1, 2, 3]);
    let handle = fs.open("save.dat", "r+").unwrap();
    assert_eq!(fs.read(handle, 2).unwrap(), [1, 2]);
    assert_eq!(fs.write(handle, &[9, 8]).unwrap(), 2);
    assert!(fs.close(handle));
    assert_eq!(fs.file("save.dat"), Some([1, 2, 9, 8].as_slice()));

    let handle = fs.open("save.dat", "ab").unwrap();
    fs.write(handle, &[7]).unwrap();
    assert_eq!(fs.file("save.dat"), Some([1, 2, 9, 8, 7].as_slice()));
}

#[test]
fn lists_immediate_children() {
    let mut fs = VirtualFileSystem::default();
    fs.import_file("/one/a.dat", vec![]);
    fs.import_file("/one/two/b.dat", vec![]);
    assert_eq!(fs.count("/one"), 2);
    assert_eq!(fs.list("/one"), ["a.dat", "two"]);
}

#[test]
fn a_write_is_read_back() {
    let mut fs = VirtualFileSystem::default();
    let handle = fs.open("/new.dat", "wb+").unwrap();
    assert_eq!(fs.write(handle, &[5, 6, 7]), Some(3));
    assert_eq!(fs.tell(handle), Some(3));
    assert!(fs.rewind(handle));
    assert_eq!(fs.eof(handle), Some(false));
    assert_eq!(fs.read(handle, 3).unwrap(), [5, 6, 7]);
    assert_eq!(fs.eof(handle), Some(true));
    assert_eq!(fs.seek(handle, -2, 2), Some(1));
    assert_eq!(fs.read(handle, 8).unwrap(), [6, 7]);
}

#[test]
fn read_only_handles_write_nothing_and_missing_files_do_not_open() {
    let mut fs = VirtualFileSystem::default();
    assert_eq!(fs.open("/missing.dat", "rb"), None);
    fs.import_file("/a.dat", vec![1]);
    let handle = fs.open("/a.dat", "rb").unwrap();
    assert_eq!(fs.write(handle, &[2]), Some(0));
    assert_eq!(fs.file("/a.dat"), Some([1].as_slice()));
    assert!(fs.close(handle));
    assert!(!fs.close(handle));
}

#[test]
fn deletes_files_and_tracks_dirty_ones() {
    let mut fs = VirtualFileSystem::default();
    fs.import_file("/keep.dat", vec![1]);
    let handle = fs.open("/made.dat", "wb").unwrap();
    fs.write(handle, &[4]).unwrap();
    fs.close(handle);
    let dirty = fs.take_dirty_files();
    assert_eq!(dirty, vec![("/made.dat".to_string(), vec![4])]);
    assert!(fs.take_dirty_files().is_empty());
    assert!(fs.delete("/keep.dat"));
    assert_eq!(fs.file("/keep.dat"), None);
    assert!(!fs.delete("/keep.dat"));
    assert_eq!(fs.current_directory(), "/");
}

#[test]
fn paths_ignore_case_and_backslashes() {
    let mut fs = VirtualFileSystem::default();
    assert!(fs.import_file("\\Save\\A.DAT", vec![4, 2]));
    assert_eq!(fs.file("/save/a.dat"), Some([4, 2].as_slice()));
    assert_eq!(fs.file("/SAVE/./x/../A.dat"), Some([4, 2].as_slice()));
    assert_eq!(fs.file("/../save/a.dat"), None);
}
