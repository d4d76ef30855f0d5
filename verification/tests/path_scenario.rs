use std::path::{Path, PathBuf};

use trie::Trie;

fn path_to_key_iter(path: &Path) -> Vec<String> {
    path.components()
        .map(|c| c.as_os_str().to_string_lossy().into_owned())
        .collect()
}

#[test]
fn test_all() {
    let mut trie: Trie<String, PathBuf> = Trie::new();
    let src_path1 = Path::new("/etc/bin/echos");
    let src_path2 = Path::new("/etc/bin/echo");
    let src_path3 = Path::new("/etc/bin/echo/hello.txt");

    let dest_path1 = PathBuf::from("usr/cat");
    let dest_path2 = PathBuf::from("usr/tar");

    let longer_path1 = Path::new("/etc/bin/echo/hello.txt/jello");
    trie.insert(path_to_key_iter(src_path1), dest_path1.clone());
    trie.insert(path_to_key_iter(src_path3), dest_path2.clone());

    assert!(trie.contains(path_to_key_iter(src_path1)));
    assert!(trie.contains(path_to_key_iter(src_path3)));
    assert_eq!(
        trie.get(path_to_key_iter(src_path1)),
        Some(dest_path1.clone())
    );
    assert_eq!(
        trie.get(path_to_key_iter(src_path3)),
        Some(dest_path2.clone())
    );
    assert_eq!(
        trie.best_match(path_to_key_iter(src_path1)),
        Some(dest_path1.clone())
    );
    assert_eq!(
        trie.best_match(path_to_key_iter(longer_path1)),
        Some(dest_path2.clone())
    );
    assert!(!trie.contains(path_to_key_iter(src_path2)));
}

#[test]
fn path_prefix_that_was_never_inserted_has_no_value() {
    let mut trie: Trie<String, PathBuf> = Trie::new();
    trie.insert(
        path_to_key_iter(Path::new("/etc/bin/echo/hello.txt")),
        PathBuf::from("usr/tar"),
    );
    assert_eq!(trie.get(path_to_key_iter(Path::new("/etc/bin/echo"))), None);
    assert_eq!(trie.best_match(path_to_key_iter(Path::new("/etc/bin/echo"))), None);
    assert_eq!(
        trie.best_match(path_to_key_iter(Path::new("/etc/bin/echo/hello.txt"))),
        Some(PathBuf::from("usr/tar"))
    );
}
