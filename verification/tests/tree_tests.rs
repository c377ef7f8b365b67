use scribe::filetree::{FileTree, WalkEntry};

fn segs(parts: &[&str]) -> Vec<Vec<u8>> {
    parts.iter().map(|p| p.as_bytes().to_vec()).collect()
}

fn entry(parts: &[&str], is_dir: bool) -> WalkEntry {
    WalkEntry { segments: segs(parts), is_directory: is_dir }
}

fn rendered(tree: &FileTree, root: &str) -> Vec<String> {
    let name = root.as_bytes().to_vec();
    tree.display(&name)
        .iter()
        .map(|l| String::from_utf8(l.clone()).unwrap())
        .collect()
}

#[test]
fn chain_compression_single_line() {
    let entries = vec![
        entry(&["a"], true),
        entry(&["a", "b"], true),
        entry(&["a", "b", "c"], true),
        entry(&["a", "b", "c", "d.txt"], false),
    ];
    let tree = FileTree::new(&entries, false);
    assert_eq!(rendered(&tree, "root"), vec!["root", "└── a/b/c/d.txt"]);
}

#[test]
fn empty_directory_trailing_separator() {
    let entries = vec![entry(&["empty"], true)];
    let tree = FileTree::new(&entries, false);
    assert_eq!(rendered(&tree, "root"), vec!["root", "└── empty/"]);
}

#[test]
fn directory_with_two_files() {
    let entries = vec![
        entry(&["dir"], true),
        entry(&["dir", "y.txt"], false),
        entry(&["dir", "x.txt"], false),
    ];
    let tree = FileTree::new(&entries, false);
    assert_eq!(
        rendered(&tree, "root"),
        vec!["root", "└── dir/", "    ├── x.txt", "    └── y.txt"]
    );
}

#[test]
fn chain_into_branching_directory() {
    let entries = vec![
        entry(&["a"], true),
        entry(&["a", "b"], true),
        entry(&["a", "b", "x.txt"], false),
        entry(&["a", "b", "y.txt"], false),
        entry(&["top.txt"], false),
    ];
    let tree = FileTree::new(&entries, false);
    assert_eq!(
        rendered(&tree, "root"),
        vec!["root", "├── a/b/", "│   ├── x.txt", "│   └── y.txt", "└── top.txt"]
    );
}

#[test]
fn children_sorted_regardless_of_walk_order() {
    let forward = vec![
        entry(&["a.txt"], false),
        entry(&["b.txt"], false),
        entry(&["c.txt"], false),
    ];
    let backward = vec![
        entry(&["c.txt"], false),
        entry(&["b.txt"], false),
        entry(&["a.txt"], false),
    ];
    let expect = vec!["root", "├── a.txt", "├── b.txt", "└── c.txt"];
    assert_eq!(rendered(&FileTree::new(&forward, false), "root"), expect);
    assert_eq!(rendered(&FileTree::new(&backward, false), "root"), expect);
}

#[test]
fn file_count_matches_file_entries() {
    let entries = vec![
        entry(&["dir"], true),
        entry(&["dir", "a.txt"], false),
        entry(&["dir", "sub"], true),
        entry(&["dir", "sub", "b.txt"], false),
        entry(&["c.txt"], false),
    ];
    let tree = FileTree::new(&entries, false);
    assert_eq!(tree.file_count(), 3);
}

#[test]
fn duplicate_entries_do_not_inflate_count() {
    let entries = vec![
        entry(&["dir"], true),
        entry(&["dir"], true),
        entry(&["dir", "a.txt"], false),
        entry(&["dir", "a.txt"], false),
    ];
    let tree = FileTree::new(&entries, false);
    assert_eq!(tree.file_count(), 1);
}

#[test]
fn root_single_file_leaf() {
    let entries: Vec<WalkEntry> = vec![];
    let tree = FileTree::new(&entries, true);
    assert_eq!(tree.file_count(), 1);
    assert_eq!(rendered(&tree, "notes.txt"), vec!["notes.txt"]);
    let paths = tree.visit_files();
    assert_eq!(paths, vec![Vec::<u8>::new()]);
}

#[test]
fn visit_files_in_path_order() {
    let entries = vec![
        entry(&["b"], true),
        entry(&["b", "z.txt"], false),
        entry(&["a.txt"], false),
        entry(&["b", "a.txt"], false),
    ];
    let tree = FileTree::new(&entries, false);
    let paths: Vec<String> = tree
        .visit_files()
        .iter()
        .map(|p| String::from_utf8(p.clone()).unwrap())
        .collect();
    assert_eq!(paths, vec!["a.txt", "b/a.txt", "b/z.txt"]);
}

#[test]
fn file_blocking_deeper_entry_is_dropped() {
    let entries = vec![
        entry(&["a"], false),
        entry(&["a", "b.txt"], false),
    ];
    let tree = FileTree::new(&entries, false);
    assert_eq!(tree.file_count(), 1);
    assert_eq!(rendered(&tree, "root"), vec!["root", "└── a"]);
}

#[test]
fn empty_walk_renders_root_alone() {
    let entries: Vec<WalkEntry> = vec![];
    let tree = FileTree::new(&entries, false);
    assert_eq!(tree.file_count(), 0);
    assert_eq!(rendered(&tree, "root"), vec!["root"]);
    assert_eq!(tree.visit_files(), Vec::<Vec<u8>>::new());
}
