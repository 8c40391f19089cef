use nizer::browser::{
    confirms_delete, parent_dir, parse_dialog, parse_index, rename_target, step_listing,
    trim, BrowserState, DialogChoice, StepEffect,
};
use nizer::listing::{build_listing, Entry};

fn entry(path: &str, is_dir: bool) -> Entry {
    Entry { path: path.as_bytes().to_vec(), is_dir }
}

fn sample_listing() -> Vec<Entry> {
    // marker, then /d/sub, then /d/notes.md, then the invisible /d/raw.bin
    build_listing(vec![
        entry("/d/notes.md", false),
        entry("/d/sub", true),
        entry("/d/raw.bin", false),
    ])
}

#[test]
fn trim_removes_surrounding_whitespace() {
    assert_eq!(trim(&b"  q\r\n".to_vec()), b"q".to_vec());
    assert_eq!(trim(&b"\t 12 \n".to_vec()), b"12".to_vec());
    assert_eq!(trim(&b"a b".to_vec()), b"a b".to_vec());
    assert_eq!(trim(&b"   ".to_vec()), Vec::<u8>::new());
}

#[test]
fn parse_index_accepts_plain_numbers() {
    assert_eq!(parse_index(&b"0".to_vec()), Some(0));
    assert_eq!(parse_index(&b"17".to_vec()), Some(17));
    assert_eq!(parse_index(&b"+3".to_vec()), Some(3));
}

#[test]
fn parse_index_rejects_everything_else() {
    assert_eq!(parse_index(&b"".to_vec()), None);
    assert_eq!(parse_index(&b"q".to_vec()), None);
    assert_eq!(parse_index(&b"1a".to_vec()), None);
    assert_eq!(parse_index(&b"-1".to_vec()), None);
    assert_eq!(parse_index(&b"+".to_vec()), None);
    assert_eq!(parse_index(&b"99999999999999999999999999".to_vec()), None);
}

#[test]
fn quit_input_quits_without_moving() {
    let mut state = BrowserState { dir: b"/d".to_vec() };
    let listing = sample_listing();
    let eff = step_listing(&mut state, &listing, &b"q\n".to_vec());
    assert_eq!(eff, StepEffect::Quit);
    assert_eq!(state.dir, b"/d".to_vec());
}

#[test]
fn bad_inputs_change_nothing() {
    let mut state = BrowserState { dir: b"/d".to_vec() };
    let listing = sample_listing();
    for input in [&b"abc\n"[..], b"12x", b"99", b"4", b"-1", b""] {
        let eff = step_listing(&mut state, &listing, &input.to_vec());
        assert_eq!(eff, StepEffect::Redraw);
        assert_eq!(state.dir, b"/d".to_vec());
    }
}

#[test]
fn selecting_the_marker_goes_to_the_parent() {
    let mut state = BrowserState { dir: b"/d/sub".to_vec() };
    let listing = sample_listing();
    let eff = step_listing(&mut state, &listing, &b"0\n".to_vec());
    assert_eq!(eff, StepEffect::Redraw);
    assert_eq!(state.dir, b"/d".to_vec());
}

#[test]
fn the_root_has_no_parent_to_go_to() {
    let mut state = BrowserState { dir: b"/".to_vec() };
    let listing = sample_listing();
    let eff = step_listing(&mut state, &listing, &b"0".to_vec());
    assert_eq!(eff, StepEffect::Redraw);
    assert_eq!(state.dir, b"/".to_vec());
}

#[test]
fn selecting_a_directory_enters_it() {
    let mut state = BrowserState { dir: b"/d".to_vec() };
    let listing = sample_listing();
    let eff = step_listing(&mut state, &listing, &b"1\n".to_vec());
    assert_eq!(eff, StepEffect::Redraw);
    assert_eq!(state.dir, b"/d/sub".to_vec());
}

#[test]
fn selecting_a_text_file_opens_its_dialog() {
    let mut state = BrowserState { dir: b"/d".to_vec() };
    let listing = sample_listing();
    let eff = step_listing(&mut state, &listing, &b"2\n".to_vec());
    assert_eq!(eff, StepEffect::FileDialog(b"/d/notes.md".to_vec()));
    assert_eq!(state.dir, b"/d".to_vec());
}

#[test]
fn selecting_an_invisible_entry_is_a_no_op() {
    let mut state = BrowserState { dir: b"/d".to_vec() };
    let listing = sample_listing();
    // index 3 is /d/raw.bin: listed but neither directory nor text candidate
    let eff = step_listing(&mut state, &listing, &b"3\n".to_vec());
    assert_eq!(eff, StepEffect::Redraw);
    assert_eq!(state.dir, b"/d".to_vec());
}

#[test]
fn parent_dir_follows_the_platform_rule() {
    assert_eq!(parent_dir(&b"/d/sub".to_vec()), Some(b"/d".to_vec()));
    assert_eq!(parent_dir(&b"/d".to_vec()), Some(b"/".to_vec()));
    assert_eq!(parent_dir(&b"/".to_vec()), None);
    assert_eq!(parent_dir(&b"name".to_vec()), Some(Vec::new()));
    assert_eq!(parent_dir(&b"".to_vec()), None);
}

#[test]
fn dialog_commands_map_to_choices() {
    assert_eq!(parse_dialog(&b"\n".to_vec()), DialogChoice::Open);
    assert_eq!(parse_dialog(&b"".to_vec()), DialogChoice::Open);
    assert_eq!(parse_dialog(&b"--r\n".to_vec()), DialogChoice::Rename);
    assert_eq!(parse_dialog(&b"--d\n".to_vec()), DialogChoice::Delete);
    assert_eq!(parse_dialog(&b"--x\n".to_vec()), DialogChoice::Cancel);
    assert_eq!(parse_dialog(&b"open\n".to_vec()), DialogChoice::Cancel);
}

#[test]
fn delete_needs_the_single_letter_confirmation() {
    assert!(confirms_delete(&b"s\n".to_vec()));
    assert!(confirms_delete(&b"S\n".to_vec()));
    assert!(confirms_delete(&b" s ".to_vec()));
    assert!(!confirms_delete(&b"ss\n".to_vec()));
    assert!(!confirms_delete(&b"n\n".to_vec()));
    assert!(!confirms_delete(&b"\n".to_vec()));
}

#[test]
fn renaming_to_an_empty_name_is_skipped() {
    assert_eq!(rename_target(&b"/d/notes.md".to_vec(), &b"\n".to_vec()), None);
    assert_eq!(rename_target(&b"/d/notes.md".to_vec(), &b"   ".to_vec()), None);
}

#[test]
fn renaming_stays_beside_the_original() {
    assert_eq!(
        rename_target(&b"/d/notes.md".to_vec(), &b"todo.md\n".to_vec()),
        Some(b"/d/todo.md".to_vec())
    );
    assert_eq!(
        rename_target(&b"/a.md".to_vec(), &b"b.md".to_vec()),
        Some(b"/b.md".to_vec())
    );
    assert_eq!(
        rename_target(&b"bare.md".to_vec(), &b"new.md".to_vec()),
        Some(b"new.md".to_vec())
    );
    // an absolute name replaces the whole path, as path joining does
    assert_eq!(
        rename_target(&b"/d/notes.md".to_vec(), &b"/tmp/x.md".to_vec()),
        Some(b"/tmp/x.md".to_vec())
    );
}
