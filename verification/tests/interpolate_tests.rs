use tanukioke::document::LyricLine;
use tanukioke::interpolate::{find_current_line_index, scroll_offset};

fn line(cs: u64) -> LyricLine {
    LyricLine::new(cs, String::new())
}

// Two lines at t=10s and t=20s whose centers sit at 100px and 200px:
// the first line is 200px tall, so its center is 0/2 + 200/2 = 100, and
// the second has zero height, so its center is 200 + 0/2 = 200.
fn two_line_setup() -> (Vec<LyricLine>, Vec<i64>) {
    (vec![line(1000), line(2000)], vec![200, 0])
}

#[test]
fn test_scroll_boundaries() {
    let (lines, heights) = two_line_setup();
    // viewport 0, spacing 0: the offset equals the target center
    assert_eq!(scroll_offset(&lines, &heights, 0, 0, 1000), 100);
    assert_eq!(scroll_offset(&lines, &heights, 0, 0, 1500), 150);
    assert_eq!(scroll_offset(&lines, &heights, 0, 0, 2000), 200);
    // before the first line: stay at the top
    assert_eq!(scroll_offset(&lines, &heights, 0, 0, 999), 0);
    assert_eq!(scroll_offset(&lines, &heights, 0, 0, 0), 0);
    // after the last line: its center stays centered
    assert_eq!(scroll_offset(&lines, &heights, 0, 0, 60000), 200);
}

#[test]
fn test_scroll_linear_between() {
    let (lines, heights) = two_line_setup();
    assert_eq!(scroll_offset(&lines, &heights, 0, 0, 1250), 125);
    assert_eq!(scroll_offset(&lines, &heights, 0, 0, 1750), 175);
}

#[test]
fn test_scroll_viewport_offset() {
    let (lines, heights) = two_line_setup();
    // the target center lands in the middle of a 600px viewport, and the
    // half-viewport top padding shifts every center down by 300
    assert_eq!(scroll_offset(&lines, &heights, 0, 600, 1000), 400 - 300);
    assert_eq!(scroll_offset(&lines, &heights, 0, 600, 2000), 500 - 300);
}

#[test]
fn test_scroll_spacing() {
    // spacing advances the accumulated y between lines
    let lines = vec![line(0), line(1000)];
    let heights = vec![100i64, 100];
    // centers: 50 and 100 + 16 + 50 = 166
    assert_eq!(scroll_offset(&lines, &heights, 16, 0, 0), 50);
    assert_eq!(scroll_offset(&lines, &heights, 16, 0, 1000), 166);
}

#[test]
fn test_scroll_empty() {
    let lines: Vec<LyricLine> = Vec::new();
    let heights: Vec<i64> = Vec::new();
    assert_eq!(scroll_offset(&lines, &heights, 0, 600, 500), 0);
}

#[test]
fn test_find_current_line_index() {
    let lines = vec![line(1000), line(2000), line(3000)];
    assert_eq!(find_current_line_index(&lines, 0), None);
    assert_eq!(find_current_line_index(&lines, 1000), Some(0));
    assert_eq!(find_current_line_index(&lines, 2500), Some(1));
    assert_eq!(find_current_line_index(&lines, 9999), Some(2));
}
