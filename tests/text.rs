use pdf_viewer::{
    extract_page_text, filter_overlapping_text, group_words, Glyph, PageGeometry, PointRect,
    RotationAngle, TextBounds, TextElement,
};

fn element(text: &str, x: i64, y: i64, width: i64, height: i64) -> TextElement {
    TextElement { text: text.to_string(), bounds: TextBounds { x, y, width, height }, font_size: height }
}

fn texts(v: &[TextElement]) -> Vec<String> {
    v.iter().map(|e| e.text.clone()).collect()
}

fn glyph(ch: char, left: i32, bottom: i32, right: i32, top: i32) -> Glyph {
    Glyph { ch, rect: PointRect { left, bottom, right, top } }
}

fn unit_geometry() -> PageGeometry {
    PageGeometry { page_width: 100, page_height: 100, bitmap_width: 100, bitmap_height: 100, rotation: RotationAngle::Rotate0 }
}

#[test]
fn glyphs_group_into_words_at_white_space() {
    let glyphs = vec![
        glyph('H', 0, 80, 10, 90),
        glyph('i', 10, 80, 15, 92),
        glyph(' ', 15, 80, 20, 90),
        glyph('y', 20, 80, 30, 90),
    ];
    let words = group_words(&unit_geometry(), &glyphs);
    assert_eq!(texts(&words), vec!["Hi", "y"]);
    assert_eq!(words[0].bounds, TextBounds { x: 0, y: 10, width: 15, height: 12 });
    assert_eq!(words[0].font_size, 12);
    assert_eq!(words[1].bounds, TextBounds { x: 20, y: 10, width: 10, height: 10 });
}

#[test]
fn repeated_white_space_emits_no_empty_words() {
    let glyphs = vec![
        glyph(' ', 0, 0, 5, 10),
        glyph('a', 5, 0, 10, 10),
        glyph('\n', 10, 0, 15, 10),
        glyph('\t', 15, 0, 20, 10),
        glyph('b', 20, 0, 25, 10),
        glyph('c', 25, 0, 30, 10),
    ];
    let words = group_words(&unit_geometry(), &glyphs);
    assert_eq!(texts(&words), vec!["a", "bc"]);
    assert!(group_words(&unit_geometry(), &Vec::new()).is_empty());
}

#[test]
fn page_text_is_grouped_then_filtered() {
    let glyphs = vec![
        glyph('7', 0, 0, 5, 10),
        glyph(' ', 5, 0, 10, 10),
        glyph('o', 10, 50, 15, 60),
        glyph('k', 15, 50, 20, 60),
        glyph(' ', 20, 50, 25, 60),
        glyph('u', 30, 80, 35, 90),
        glyph('p', 35, 80, 40, 90),
    ];
    let out = extract_page_text(&unit_geometry(), &glyphs, 0);
    assert_eq!(texts(&out), vec!["up", "ok"]);
}

#[test]
fn short_numeric_fragments_are_removed() {
    let input = vec![
        element("12", 0, 0, 10, 10),
        element("7", 0, 20, 10, 10),
        element("1234", 0, 40, 10, 10),
        element("a1", 0, 60, 10, 10),
        element("x", 0, 80, 10, 10),
        element("  ", 0, 100, 10, 10),
        element("中", 0, 120, 10, 10),
        element("٣", 0, 140, 10, 10),
    ];
    let out = filter_overlapping_text(input, 0);
    assert_eq!(texts(&out), vec!["1234", "a1", "中"]);
}

#[test]
fn fragments_come_out_in_reading_order() {
    let input = vec![
        element("world", 50, 10, 20, 5),
        element("second", 0, 30, 20, 5),
        element("hello", 0, 10, 20, 5),
    ];
    let out = filter_overlapping_text(input, 0);
    assert_eq!(texts(&out), vec!["hello", "world", "second"]);
}

#[test]
fn duplicates_and_contained_text_are_removed() {
    let input = vec![
        element("hello", 0, 0, 10, 5),
        element(" hello ", 0, 100, 10, 5),
        element("hello world", 0, 200, 10, 5),
        element("world", 0, 300, 10, 5),
        element("worlds apart", 0, 400, 10, 5),
    ];
    let out = filter_overlapping_text(input, 0);
    assert_eq!(texts(&out), vec!["hello world", "worlds apart"]);
}

#[test]
fn overlapping_boxes_keep_the_longer_text() {
    let longer_wins = vec![element("foo", 0, 0, 100, 10), element("barbaz", 10, 0, 100, 10)];
    assert_eq!(texts(&filter_overlapping_text(longer_wins, 0)), vec!["barbaz"]);
    let tie_keeps_first = vec![element("foo", 0, 0, 100, 10), element("bar", 10, 0, 100, 10)];
    assert_eq!(texts(&filter_overlapping_text(tie_keeps_first, 0)), vec!["foo"]);
    let small_overlap = vec![element("foo", 0, 0, 100, 10), element("bar", 50, 0, 100, 10)];
    assert_eq!(texts(&filter_overlapping_text(small_overlap, 0)), vec!["foo", "bar"]);
}

#[test]
fn filtering_twice_changes_nothing() {
    let input = vec![
        element("alpha", 0, 0, 50, 10),
        element("alphabet", 5, 0, 50, 10),
        element("42", 0, 20, 10, 10),
        element("beta", 0, 40, 50, 10),
        element("gamma ray", 100, 40, 50, 10),
        element("gamma", 0, 60, 50, 10),
        element("beta", 0, 80, 50, 10),
    ];
    let once = filter_overlapping_text(input, 0);
    let copy: Vec<TextElement> = once.iter().map(|e| e.copy_of()).collect();
    let twice = filter_overlapping_text(copy, 0);
    assert_eq!(texts(&once), texts(&twice));
    let bounds_once: Vec<TextBounds> = once.iter().map(|e| e.bounds).collect();
    let bounds_twice: Vec<TextBounds> = twice.iter().map(|e| e.bounds).collect();
    assert_eq!(bounds_once, bounds_twice);
    assert_eq!(texts(&once), vec!["alphabet", "beta", "gamma ray"]);
}

#[test]
fn unicode_white_space_splits_words_and_is_trimmed() {
    let glyphs = vec![
        glyph('a', 0, 0, 5, 10),
        glyph('b', 5, 0, 10, 10),
        glyph('\u{3000}', 10, 0, 15, 10),
        glyph('c', 15, 0, 20, 10),
        glyph('d', 20, 0, 25, 10),
        glyph('\u{a0}', 25, 0, 30, 10),
        glyph('e', 30, 0, 35, 10),
        glyph('f', 35, 0, 40, 10),
    ];
    assert_eq!(texts(&group_words(&unit_geometry(), &glyphs)), vec!["ab", "cd", "ef"]);
    let out = filter_overlapping_text(vec![element("\u{2003}\tok\u{205f}", 0, 0, 10, 10)], 0);
    assert_eq!(texts(&out), vec!["\u{2003}\tok\u{205f}"]);
    let gone = filter_overlapping_text(vec![element("\u{2028} x \u{3000}", 0, 0, 10, 10)], 0);
    assert!(gone.is_empty());
}
