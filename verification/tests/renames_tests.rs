use grit_commands::renames::{directory_renames_from_file_renames, parent_dir, remap_path_by_directory_renames};

fn pair(a: &str, b: &str) -> (Vec<u8>, Vec<u8>) {
    (a.as_bytes().to_vec(), b.as_bytes().to_vec())
}

#[test]
fn parent_directories() {
    assert_eq!(parent_dir(b"a/b/c.txt"), b"a/b".to_vec());
    assert_eq!(parent_dir(b"top.txt"), Vec::<u8>::new());
}

#[test]
fn majority_directory_rename() {
    let renames = vec![
        pair("old/a", "new/a"),
        pair("old/b", "new/b"),
        pair("old/c", "other/c"),
        pair("x/1", "y/1"),
        pair("x/2", "z/2"),
        pair("same/f", "same/g"),
    ];
    let map = directory_renames_from_file_renames(&renames);
    assert_eq!(map, vec![pair("old", "new")]);
}

#[test]
fn remapping_uses_deepest_directory() {
    let map = vec![pair("a", "x"), pair("a/b", "y/z"), pair("", "root")];
    assert_eq!(remap_path_by_directory_renames(b"a/b/f", &map), Some(b"y/z/f".to_vec()));
    assert_eq!(remap_path_by_directory_renames(b"a/f", &map), Some(b"x/f".to_vec()));
    assert_eq!(remap_path_by_directory_renames(b"f", &map), Some(b"root/f".to_vec()));
    assert_eq!(remap_path_by_directory_renames(b"c/f", &map), None);
    let to_top = vec![pair("d", "")];
    assert_eq!(remap_path_by_directory_renames(b"d/f", &to_top), Some(b"f".to_vec()));
}

#[test]
fn directory_renames_do_not_depend_on_order() {
    let renames = vec![
        pair("old/a", "new/a"),
        pair("x/1", "y/1"),
        pair("old/b", "new/b"),
        pair("old/c", "other/c"),
        pair("x/2", "z/2"),
        pair("same/p", "same/q"),
    ];
    let mut reversed = renames.clone();
    reversed.reverse();
    let mut a = directory_renames_from_file_renames(&renames);
    let mut b = directory_renames_from_file_renames(&reversed);
    a.sort();
    b.sort();
    assert_eq!(a, vec![pair("old", "new")]);
    assert_eq!(a, b);
}
