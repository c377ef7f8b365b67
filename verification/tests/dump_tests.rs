use scribe::filetree::{FileTree, WalkEntry};
use scribe::output::format_file_block;

const PLACEHOLDER: &str = "   * [Could not read file content (likely binary or permission error)]";

fn block(path: &str, content: Option<&[u8]>) -> Vec<String> {
    let p = path.as_bytes().to_vec();
    let c = content.map(|b| b.to_vec());
    format_file_block(&p, &c)
        .iter()
        .map(|l| String::from_utf8(l.clone()).unwrap())
        .collect()
}

#[test]
fn numbered_dump_three_lines() {
    assert_eq!(
        block("f.txt", Some(b"alpha\nbeta\ngamma\n")),
        vec!["", "/f.txt:", "1 alpha", "2 beta", "3 gamma", "---"]
    );
}

#[test]
fn numbers_right_aligned_to_count_width() {
    let content = b"a\nb\nc\nd\ne\nf\ng\nh\ni\nj\n";
    let lines = block("f.txt", Some(content));
    assert_eq!(lines.len(), 13);
    assert_eq!(lines[2], " 1 a");
    assert_eq!(lines[10], " 9 i");
    assert_eq!(lines[11], "10 j");
}

#[test]
fn final_line_without_newline_counts() {
    assert_eq!(
        block("f.txt", Some(b"one\ntwo")),
        vec!["", "/f.txt:", "1 one", "2 two", "---"]
    );
}

#[test]
fn crlf_line_endings_stripped() {
    assert_eq!(
        block("f.txt", Some(b"a\r\nb\r\n")),
        vec!["", "/f.txt:", "1 a", "2 b", "---"]
    );
}

#[test]
fn empty_file_dumps_no_lines() {
    assert_eq!(block("f.txt", Some(b"")), vec!["", "/f.txt:", "---"]);
}

#[test]
fn invalid_text_yields_placeholder_only() {
    let content: &[u8] = &[0x41, 0xff, 0xfe, 0x0a, 0x42];
    assert_eq!(
        block("f.bin", Some(content)),
        vec!["", "/f.bin:", PLACEHOLDER, "---"]
    );
}

#[test]
fn unreadable_file_yields_placeholder() {
    assert_eq!(block("gone.txt", None), vec!["", "/gone.txt:", PLACEHOLDER, "---"]);
}

#[test]
fn header_normalizes_backslashes() {
    assert_eq!(
        block("a\\b.txt", Some(b"x\n")),
        vec!["", "/a/b.txt:", "1 x", "---"]
    );
}

#[test]
fn format_concatenates_blocks_in_order() {
    let entries = vec![
        WalkEntry { segments: vec![b"b.txt".to_vec()], is_directory: false },
        WalkEntry { segments: vec![b"a.txt".to_vec()], is_directory: false },
    ];
    let tree = FileTree::new(&entries, false);
    let contents = vec![Some(b"first\n".to_vec()), None];
    let lines: Vec<String> = scribe::output::format(&tree, &contents)
        .iter()
        .map(|l| String::from_utf8(l.clone()).unwrap())
        .collect();
    assert_eq!(
        lines,
        vec!["", "/a.txt:", "1 first", "---", "", "/b.txt:", PLACEHOLDER, "---"]
    );
}
