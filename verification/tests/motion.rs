use vim::display_map::DisplayMap;
use vim::position::{Bias, Position};
use vim::selection::Selection;
use vim::visual::visual_motion;

fn map_of(lines: &[&str]) -> DisplayMap {
    DisplayMap { lines: lines.iter().map(|s| s.as_bytes().to_vec()).collect() }
}

fn pos(row: usize, col: usize) -> Position {
    Position { row, col }
}

fn motion(map: &DisplayMap, sels: &mut Vec<Selection>, target: Position, goal: Option<usize>) {
    let targets = vec![(target, goal); sels.len()];
    visual_motion(map, sels, &targets);
}

#[test]
fn test_enter_visual_mode() {
    let doc = ["The quick brown", "fox jumps over", "the lazy dog"];

    // "v w j" from the first line: the selection grows forward
    let map = map_of(&doc);
    let mut sels = vec![Selection::new_at(0, pos(0, 4))];
    motion(&map, &mut sels, pos(0, 10), None);
    assert_eq!(sels[0].start, pos(0, 4));
    assert_eq!(sels[0].end, pos(0, 10));
    assert!(!sels[0].reversed);
    motion(&map, &mut sels, pos(1, 10), Some(10));
    assert_eq!(sels[0].start, pos(0, 4));
    assert_eq!(sels[0].end, pos(1, 10));
    assert!(!sels[0].reversed);
    assert_eq!(sels[0].goal, Some(10));

    // "v w j" on the last line: the motions stay on the line
    let mut sels = vec![Selection::new_at(0, pos(2, 4))];
    motion(&map, &mut sels, pos(2, 9), None);
    motion(&map, &mut sels, pos(2, 9), Some(9));
    assert_eq!(sels[0].start, pos(2, 4));
    assert_eq!(sels[0].end, pos(2, 9));
    assert!(!sels[0].reversed);

    // "v w j" crossing onto the next line
    let mut sels = vec![Selection::new_at(0, pos(1, 10))];
    motion(&map, &mut sels, pos(2, 0), None);
    motion(&map, &mut sels, pos(2, 0), Some(0));
    assert_eq!(sels[0].start, pos(1, 10));
    assert_eq!(sels[0].end, pos(2, 0));

    // "v b k": the selection flips, and the freed end boundary is pushed
    // out one column so the entry character stays covered
    let mut sels = vec![Selection::new_at(0, pos(0, 4))];
    motion(&map, &mut sels, pos(0, 0), None);
    assert_eq!(sels[0].start, pos(0, 0));
    assert_eq!(sels[0].end, pos(0, 5));
    assert!(sels[0].reversed);
    motion(&map, &mut sels, pos(0, 0), Some(0));
    assert_eq!(sels[0].start, pos(0, 0));
    assert_eq!(sels[0].end, pos(0, 5));
    assert!(sels[0].reversed);

    // "v b k" from the last line
    let mut sels = vec![Selection::new_at(0, pos(2, 4))];
    motion(&map, &mut sels, pos(2, 0), None);
    assert_eq!(sels[0].start, pos(2, 0));
    assert_eq!(sels[0].end, pos(2, 5));
    assert!(sels[0].reversed);
    motion(&map, &mut sels, pos(1, 0), Some(0));
    assert_eq!(sels[0].start, pos(1, 0));
    assert_eq!(sels[0].end, pos(2, 5));
    assert!(sels[0].reversed);
}

#[test]
fn test_motion_clips_head_at_line_end() {
    // a target past the line's last character is pulled back onto it
    let map = map_of(&["The quick brown"]);
    let mut sels = vec![Selection::new_at(0, pos(0, 10))];
    motion(&map, &mut sels, pos(0, 15), None);
    assert_eq!(sels[0].end, pos(0, 14));
    assert!(!sels[0].reversed);
}

#[test]
fn test_motion_start_column_saturates_at_zero() {
    // flipping forward decrements the new low boundary, flooring at 0
    let map = map_of(&["abc", "def"]);
    let mut sels = vec![Selection {
        id: 0,
        start: pos(0, 2),
        end: pos(1, 0),
        reversed: true,
        goal: None,
    }];
    motion(&map, &mut sels, pos(1, 2), None);
    assert_eq!(sels[0].start, pos(1, 0));
    assert_eq!(sels[0].end, pos(1, 2));
    assert!(!sels[0].reversed);
}

#[test]
fn test_reversal_consistency_after_motions() {
    // reversed holds exactly when the head is the earlier endpoint
    let map = map_of(&["The quick brown", "fox jumps over", "the lazy dog"]);
    let cases = [
        (pos(1, 5), pos(2, 3), Some(3)),
        (pos(1, 5), pos(0, 2), Some(2)),
        (pos(1, 5), pos(1, 13), None),
        (pos(1, 5), pos(0, 0), Some(0)),
    ];
    for (entry, target, goal) in cases {
        let mut sels = vec![Selection::new_at(7, entry)];
        motion(&map, &mut sels, target, goal);
        let s = sels[0];
        assert!(s.start.is_le(&s.end));
        if s.start != s.end {
            assert_eq!(s.reversed, s.head() == s.start);
        }
    }
}

#[test]
fn test_clip_point_idempotent_on_valid_positions() {
    // re-clipping an already valid position returns it unchanged, with
    // either bias
    let map = map_of(&["abc", "", "longer line"]);
    for &p in &[pos(0, 0), pos(0, 3), pos(1, 0), pos(2, 11), pos(2, 5)] {
        assert_eq!(map.clip_point(p, Bias::Left), p);
        assert_eq!(map.clip_point(p, Bias::Right), p);
    }
    // an invalid position is clamped into the document
    assert_eq!(map.clip_point(pos(0, 9), Bias::Left), pos(0, 3));
    assert_eq!(map.clip_point(pos(9, 1), Bias::Right), pos(2, 1));
    // the document's last position is the end of its last line
    assert_eq!(map.max_point(), pos(2, 11));
    assert_eq!(map.num_lines(), 3);
    assert_eq!(map.line_len(2), 11);
}

#[test]
fn test_clip_at_line_end_idempotent_on_cursor_positions() {
    let map = map_of(&["abc", ""]);
    // already on a character, or on an empty line: unchanged
    assert_eq!(map.clip_at_line_end(pos(0, 2)), pos(0, 2));
    assert_eq!(map.clip_at_line_end(pos(1, 0)), pos(1, 0));
    // at the very end of a non-empty line: pulled back one column
    assert_eq!(map.clip_at_line_end(pos(0, 3)), pos(0, 2));
}
