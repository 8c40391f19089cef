use nizer::listing::{build_listing, is_text_file, Entry};

fn entry(path: &str, is_dir: bool) -> Entry {
    Entry { path: path.as_bytes().to_vec(), is_dir }
}

#[test]
fn parent_marker_first_in_empty_directory() {
    let listing = build_listing(Vec::new());
    assert_eq!(listing.len(), 1);
    assert_eq!(listing[0].path, b"..".to_vec());
    assert!(!listing[0].is_dir);
}

#[test]
fn parent_marker_first_whatever_the_contents() {
    let listing = build_listing(vec![
        entry("/d/zzz", true),
        entry("/d/aaa.md", false),
        entry("/d/.hidden", false),
    ]);
    assert_eq!(listing.len(), 4);
    assert_eq!(listing[0].path, b"..".to_vec());
}

#[test]
fn directories_sort_before_files() {
    let listing = build_listing(vec![
        entry("/d/b.txt", false),
        entry("/d/alpha", true),
        entry("/d/a.txt", false),
        entry("/d/zeta", true),
    ]);
    let paths: Vec<&[u8]> = listing.iter().map(|e| e.path.as_slice()).collect();
    assert_eq!(
        paths,
        vec![
            b"..".as_slice(),
            b"/d/alpha".as_slice(),
            b"/d/zeta".as_slice(),
            b"/d/a.txt".as_slice(),
            b"/d/b.txt".as_slice(),
        ]
    );
}

#[test]
fn same_kind_sorts_by_file_name() {
    let listing = build_listing(vec![
        entry("/d/c.md", false),
        entry("/d/a.md", false),
        entry("/d/b.md", false),
    ]);
    assert_eq!(listing[1].path, b"/d/a.md".to_vec());
    assert_eq!(listing[2].path, b"/d/b.md".to_vec());
    assert_eq!(listing[3].path, b"/d/c.md".to_vec());
}

#[test]
fn listing_for_sub_and_notes() {
    // a directory with a subdirectory and one text file lists the marker,
    // then the subdirectory, then the file
    let listing = build_listing(vec![entry("/d/notes.md", false), entry("/d/sub", true)]);
    assert_eq!(listing.len(), 3);
    assert_eq!(listing[0].path, b"..".to_vec());
    assert_eq!(listing[1].path, b"/d/sub".to_vec());
    assert!(listing[1].is_dir);
    assert_eq!(listing[2].path, b"/d/notes.md".to_vec());
    assert!(!listing[2].is_dir);
}

#[test]
fn allowed_extensions_are_text_candidates() {
    assert!(is_text_file(&b"/d/a.md".to_vec()));
    assert!(is_text_file(&b"/d/a.txt".to_vec()));
    assert!(is_text_file(&b"/d/a.doc".to_vec()));
    assert!(is_text_file(&b"/d/a.html".to_vec()));
    assert!(is_text_file(&b"relative.md".to_vec()));
    assert!(is_text_file(&b"/d/many.dots.txt".to_vec()));
}

#[test]
fn other_extensions_are_not_text_candidates() {
    assert!(!is_text_file(&b"/d/a.pdf".to_vec()));
    assert!(!is_text_file(&b"/d/a.MD".to_vec()));
    assert!(!is_text_file(&b"/d/a.htm".to_vec()));
    assert!(!is_text_file(&b"/d/noext".to_vec()));
    assert!(!is_text_file(&b"/d/trailing.".to_vec()));
    assert!(!is_text_file(&b"/d/.txt".to_vec()));
    assert!(!is_text_file(&b"..".to_vec()));
    assert!(!is_text_file(&b".".to_vec()));
    assert!(!is_text_file(&b"".to_vec()));
}
