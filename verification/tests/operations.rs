use vim::display_map::DisplayMap;
use vim::position::Position;
use vim::selection::Selection;
use vim::visual::{change, change_line, delete, delete_line, visual_motion, Mode};

fn map_of(lines: &[&str]) -> DisplayMap {
    DisplayMap { lines: lines.iter().map(|s| s.as_bytes().to_vec()).collect() }
}

fn pos(row: usize, col: usize) -> Position {
    Position { row, col }
}

fn buffer(map: &DisplayMap) -> Vec<String> {
    map.lines.iter().map(|l| String::from_utf8(l.clone()).unwrap()).collect()
}

fn assert_buffer(map: &DisplayMap, expected: &[&str]) {
    let got = buffer(map);
    let want: Vec<String> = expected.iter().map(|s| s.to_string()).collect();
    assert_eq!(got, want);
}

fn copy_strings(copy: &[Vec<u8>]) -> Vec<String> {
    copy.iter().map(|l| String::from_utf8(l.clone()).unwrap()).collect()
}

fn motion(map: &DisplayMap, sels: &mut Vec<Selection>, target: Position, goal: Option<usize>) {
    let targets = vec![(target, goal); sels.len()];
    visual_motion(map, sels, &targets);
}

#[test]
fn test_visual_delete() {
    // "v w x" at the end of a one-line document
    let mut map = map_of(&["The quick brown"]);
    let mut sels = vec![Selection::new_at(0, pos(0, 10))];
    motion(&map, &mut sels, pos(0, 15), None);
    let (clip, mode) = delete(&mut map, &mut sels);
    assert_buffer(&map, &["The quick "]);
    assert_eq!(sels[0].start, pos(0, 9));
    assert_eq!(sels[0].end, pos(0, 9));
    assert_eq!(mode, Mode::Normal);
    assert!(!clip.linewise);
    assert_eq!(copy_strings(&clip.copies[0]), vec!["brown".to_string()]);

    // "v w j x" across a line boundary
    let mut map = map_of(&["The quick brown", "fox jumps over", "the lazy dog"]);
    let mut sels = vec![Selection::new_at(0, pos(0, 4))];
    motion(&map, &mut sels, pos(0, 10), None);
    motion(&map, &mut sels, pos(1, 10), Some(10));
    let (clip, _) = delete(&mut map, &mut sels);
    assert_buffer(&map, &["The ver", "the lazy dog"]);
    assert_eq!(sels[0].start, pos(0, 4));
    assert_eq!(
        copy_strings(&clip.copies[0]),
        vec!["quick brown".to_string(), "fox jumps o".to_string()]
    );

    // "v w j x" on the last line
    let mut map = map_of(&["The quick brown", "fox jumps over", "the lazy dog"]);
    let mut sels = vec![Selection::new_at(0, pos(2, 4))];
    motion(&map, &mut sels, pos(2, 9), None);
    motion(&map, &mut sels, pos(2, 9), Some(9));
    delete(&mut map, &mut sels);
    assert_buffer(&map, &["The quick brown", "fox jumps over", "the og"]);
    assert_eq!(sels[0].start, pos(2, 4));

    // "v b k x": a reversed selection deletes exactly its stored range
    let mut map = map_of(&["The quick brown", "fox jumps over", "the lazy dog"]);
    let mut sels = vec![Selection::new_at(0, pos(1, 10))];
    motion(&map, &mut sels, pos(1, 4), None);
    motion(&map, &mut sels, pos(0, 4), Some(4));
    delete(&mut map, &mut sels);
    assert_buffer(&map, &["The ver", "the lazy dog"]);
    assert_eq!(sels[0].start, pos(0, 4));

    // "v b k x" from the last line
    let mut map = map_of(&["The quick brown", "fox jumps over", "the lazy dog"]);
    let mut sels = vec![Selection::new_at(0, pos(2, 4))];
    motion(&map, &mut sels, pos(2, 0), None);
    motion(&map, &mut sels, pos(1, 0), Some(0));
    delete(&mut map, &mut sels);
    assert_buffer(&map, &["The quick brown", "azy dog"]);
    assert_eq!(sels[0].start, pos(1, 0));
}

#[test]
fn test_single_character_delete() {
    // a selection spanning one character, not reversed: the buffer loses
    // exactly that character and the cursor lands at the original start
    let mut map = map_of(&["abc"]);
    let mut sels = vec![Selection::new_at(0, pos(0, 1))];
    let (clip, mode) = delete(&mut map, &mut sels);
    assert_buffer(&map, &["ac"]);
    assert_eq!(sels[0].start, pos(0, 1));
    assert_eq!(sels[0].end, pos(0, 1));
    assert!(!sels[0].reversed);
    assert_eq!(mode, Mode::Normal);
    assert_eq!(copy_strings(&clip.copies[0]), vec!["b".to_string()]);
}

#[test]
fn test_multi_line_delete_round_trip() {
    // deleting a multi-line span and pasting the copied text back at the
    // deletion's start restores the document verbatim
    let original = ["The quick brown", "fox jumps over", "the lazy dog"];
    let mut map = map_of(&original);
    let mut sels = vec![Selection::new_at(0, pos(0, 4))];
    motion(&map, &mut sels, pos(0, 10), None);
    motion(&map, &mut sels, pos(1, 10), Some(10));
    let (clip, _) = delete(&mut map, &mut sels);
    assert_buffer(&map, &["The ver", "the lazy dog"]);
    map.insert_lines(pos(0, 4), &clip.copies[0]);
    assert_buffer(&map, &original);
}

#[test]
fn test_visual_change() {
    // "v w c" at the end of a one-line document: the cursor may rest at
    // the line's very end, ready for insert mode
    let mut map = map_of(&["The quick brown"]);
    let mut sels = vec![Selection::new_at(0, pos(0, 10))];
    motion(&map, &mut sels, pos(0, 15), None);
    let (clip, mode) = change(&mut map, &mut sels);
    assert_buffer(&map, &["The quick "]);
    assert_eq!(sels[0].start, pos(0, 10));
    assert_eq!(mode, Mode::Insert);
    assert!(!clip.linewise);
    assert_eq!(copy_strings(&clip.copies[0]), vec!["brown".to_string()]);

    // "v w j c" across a line boundary
    let mut map = map_of(&["The quick brown", "fox jumps over", "the lazy dog"]);
    let mut sels = vec![Selection::new_at(0, pos(0, 4))];
    motion(&map, &mut sels, pos(0, 10), None);
    motion(&map, &mut sels, pos(1, 10), Some(10));
    let (_, mode) = change(&mut map, &mut sels);
    assert_buffer(&map, &["The ver", "the lazy dog"]);
    assert_eq!(sels[0].start, pos(0, 4));
    assert_eq!(mode, Mode::Insert);

    // "v b k c" reversed across a line boundary
    let mut map = map_of(&["The quick brown", "fox jumps over", "the lazy dog"]);
    let mut sels = vec![Selection::new_at(0, pos(2, 4))];
    motion(&map, &mut sels, pos(2, 0), None);
    motion(&map, &mut sels, pos(1, 0), Some(0));
    change(&mut map, &mut sels);
    assert_buffer(&map, &["The quick brown", "azy dog"]);
    assert_eq!(sels[0].start, pos(1, 0));
}

#[test]
fn test_visual_line_delete() {
    // deleting the first line: the following line moves up intact, and
    // the cursor keeps its column
    let mut map = map_of(&["The quick brown", "fox jumps over", "the lazy dog"]);
    let mut sels = vec![Selection::new_at(0, pos(0, 6))];
    let (clip, mode) = delete_line(&mut map, &mut sels);
    assert_buffer(&map, &["fox jumps over", "the lazy dog"]);
    assert_eq!(sels[0].start, pos(0, 6));
    assert_eq!(mode, Mode::Normal);
    assert!(clip.linewise);
    // the trailing empty fragment is the range's own line terminator
    assert_eq!(
        copy_strings(&clip.copies[0]),
        vec!["The quick brown".to_string(), "".to_string()]
    );

    // deleting a middle line
    let mut map = map_of(&["The quick brown", "fox jumps over", "the lazy dog"]);
    let mut sels = vec![Selection::new_at(0, pos(1, 6))];
    delete_line(&mut map, &mut sels);
    assert_buffer(&map, &["The quick brown", "the lazy dog"]);
    assert_eq!(sels[0].start, pos(1, 6));

    // deleting the last line merges backward: the preceding line's
    // terminator goes, leaving no blank trailing line
    let mut map = map_of(&["The quick brown", "fox jumps over", "the lazy dog"]);
    let mut sels = vec![Selection::new_at(0, pos(2, 6))];
    delete_line(&mut map, &mut sels);
    assert_buffer(&map, &["The quick brown", "fox jumps over"]);
    assert_eq!(sels[0].start, pos(1, 6));

    // "shift-V j x": two lines from the top
    let mut map = map_of(&["The quick brown", "fox jumps over", "the lazy dog"]);
    let mut sels = vec![Selection::new_at(0, pos(0, 6))];
    motion(&map, &mut sels, pos(1, 6), Some(6));
    delete_line(&mut map, &mut sels);
    assert_buffer(&map, &["the lazy dog"]);
    assert_eq!(sels[0].start, pos(0, 6));

    // "shift-V j x" reaching the last line merges backward
    let mut map = map_of(&["The quick brown", "fox jumps over", "the lazy dog"]);
    let mut sels = vec![Selection::new_at(0, pos(1, 6))];
    motion(&map, &mut sels, pos(2, 6), Some(6));
    delete_line(&mut map, &mut sels);
    assert_buffer(&map, &["The quick brown"]);
    assert_eq!(sels[0].start, pos(0, 6));
}

#[test]
fn test_column_restoration_clips_to_short_line() {
    // the recorded column is restored on the line that moves up, clipped
    // to that line's last character when it is shorter
    let mut map = map_of(&["a much longer first line", "tiny", "the lazy dog"]);
    let mut sels = vec![Selection::new_at(0, pos(0, 20))];
    delete_line(&mut map, &mut sels);
    assert_buffer(&map, &["tiny", "the lazy dog"]);
    assert_eq!(sels[0].start, pos(0, 3));
}

#[test]
fn test_visual_line_change() {
    // "shift-V c" empties the line but keeps its terminator
    let mut map = map_of(&["The quick brown", "fox jumps over", "the lazy dog"]);
    let mut sels = vec![Selection::new_at(0, pos(0, 6))];
    let (clip, mode) = change_line(&mut map, &mut sels);
    assert_buffer(&map, &["", "fox jumps over", "the lazy dog"]);
    assert_eq!(sels[0].start, pos(0, 0));
    assert_eq!(mode, Mode::Insert);
    assert!(clip.linewise);
    assert_eq!(copy_strings(&clip.copies[0]), vec!["The quick brown".to_string()]);

    // a middle line
    let mut map = map_of(&["The quick brown", "fox jumps over", "the lazy dog"]);
    let mut sels = vec![Selection::new_at(0, pos(1, 6))];
    change_line(&mut map, &mut sels);
    assert_buffer(&map, &["The quick brown", "", "the lazy dog"]);
    assert_eq!(sels[0].start, pos(1, 0));

    // the last line
    let mut map = map_of(&["The quick brown", "fox jumps over", "the lazy dog"]);
    let mut sels = vec![Selection::new_at(0, pos(2, 6))];
    change_line(&mut map, &mut sels);
    assert_buffer(&map, &["The quick brown", "fox jumps over", ""]);
    assert_eq!(sels[0].start, pos(2, 0));

    // "shift-V j c" empties two lines into one
    let mut map = map_of(&["The quick brown", "fox jumps over", "the lazy dog"]);
    let mut sels = vec![Selection::new_at(0, pos(0, 6))];
    motion(&map, &mut sels, pos(1, 6), Some(6));
    change_line(&mut map, &mut sels);
    assert_buffer(&map, &["", "the lazy dog"]);
    assert_eq!(sels[0].start, pos(0, 0));
}

#[test]
fn test_line_delete_single_line_document() {
    // with nothing above or below to merge with, the line's own content
    // goes and the empty line remains
    let mut map = map_of(&["only line"]);
    let mut sels = vec![Selection::new_at(0, pos(0, 3))];
    let (clip, mode) = delete_line(&mut map, &mut sels);
    assert_buffer(&map, &[""]);
    assert_eq!(sels[0].start, pos(0, 0));
    assert_eq!(mode, Mode::Normal);
    assert_eq!(copy_strings(&clip.copies[0]), vec!["only line".to_string()]);
}

#[test]
fn test_line_delete_whole_document() {
    // a linewise delete covering every line leaves one empty line
    let mut map = map_of(&["alpha", "beta"]);
    let mut sels = vec![Selection::new_at(0, pos(0, 2))];
    motion(&map, &mut sels, pos(1, 2), Some(2));
    delete_line(&mut map, &mut sels);
    assert_buffer(&map, &[""]);
    assert_eq!(sels[0].start, pos(0, 0));
}

#[test]
fn test_multi_cursor_delete() {
    // two cursors on one line: both characters go, and each cursor lands
    // where its character was, in final coordinates
    let mut map = map_of(&["abcdef"]);
    let mut sels = vec![Selection::new_at(1, pos(0, 1)), Selection::new_at(2, pos(0, 3))];
    let (clip, _) = delete(&mut map, &mut sels);
    assert_buffer(&map, &["acef"]);
    assert_eq!(sels[0].start, pos(0, 1));
    assert_eq!(sels[1].start, pos(0, 2));
    assert_eq!(copy_strings(&clip.copies[0]), vec!["b".to_string()]);
    assert_eq!(copy_strings(&clip.copies[1]), vec!["d".to_string()]);
}

#[test]
fn test_multi_cursor_line_delete() {
    // two cursors on different lines: both lines go in one batch, and
    // each cursor keeps its recorded column on the line that moved up
    let mut map = map_of(&["alpha", "beta", "gamma", "delta"]);
    let mut sels = vec![Selection::new_at(1, pos(0, 2)), Selection::new_at(2, pos(2, 0))];
    let (clip, _) = delete_line(&mut map, &mut sels);
    assert_buffer(&map, &["beta", "delta"]);
    assert_eq!(sels[0].start, pos(0, 2));
    assert_eq!(sels[1].start, pos(1, 0));
    assert!(clip.linewise);
    assert_eq!(copy_strings(&clip.copies[0]), vec!["alpha".to_string(), "".to_string()]);
    assert_eq!(copy_strings(&clip.copies[1]), vec!["gamma".to_string(), "".to_string()]);
}
