use codex_prompt_history::app::Focus;
use codex_prompt_history::detail_find::{ranges, segments, Document, Find, Paint, LIMIT};

#[test]
fn ascii_matches_are_byte_ranges_of_the_lowercased_text() {
    assert_eq!(ranges("hello TARGET world", "target", 10), vec![6..12]);
    assert_eq!(ranges("abab", "ab", 10), vec![0..2, 2..4]);
    assert_eq!(ranges("aaaa", "aa", 10), vec![0..2, 2..4]);
}

#[test]
fn empty_query_marks_nothing() {
    assert_eq!(ranges("anything", "", 10), Vec::new());
    assert_eq!(ranges("", "x", 10), Vec::new());
}

#[test]
fn at_most_one_more_than_the_limit_is_returned() {
    assert_eq!(ranges("a a a a", "a", 1), vec![0..1, 2..3]);
    assert_eq!(ranges("a a a a", "a", 0), vec![0..1]);
}

#[test]
fn unicode_case_expansion_maps_back_to_whole_graphemes() {
    assert_eq!(ranges("İSTANBUL", "i", 10), vec![0..2]);
    assert_eq!(ranges("x👩‍💻y", "👩", 10), vec![1..12]);
}

#[test]
fn hits_across_combining_marks_cover_their_graphemes() {
    assert_eq!(ranges("a\u{301}x\u{301}x", "\u{301}x", 10), vec![0..6, 3..7]);
}

#[test]
fn hits_inside_one_grapheme_are_reported_once() {
    assert_eq!(ranges("a\u{301}\u{301}b", "\u{301}", 10), vec![0..5]);
}

#[test]
fn overlapping_grapheme_hits_paint_the_text_once() {
    let marked = "a\u{301}x\u{301}x";
    let document = Document::new(&owned(&[marked]), 30, "\u{301}x");
    assert_eq!(document.hits.len(), 2);
    let row = &document.rows[0];
    let painted: String = segments(row, Some(1))
        .into_iter()
        .map(|(start, end, _)| &row.text[start..end])
        .collect();
    assert_eq!(painted, marked);
    assert_eq!(
        segments(row, Some(1)),
        vec![(0, 3, Paint::Hit), (3, 6, Paint::Current), (6, 7, Paint::Current)]
    );
}

#[test]
fn hits_take_turns_with_plain_text() {
    let document = Document::new(&owned(&["hit then hit"]), 20, "HIT");
    assert_eq!(document.hits, vec![0, 0]);
    let row = &document.rows[0];
    assert_eq!(
        segments(row, Some(1)),
        vec![(0, 3, Paint::Hit), (3, 9, Paint::Plain), (9, 12, Paint::Current)]
    );
    assert_eq!(segments(row, None)[0], (0, 3, Paint::Hit));
}

#[test]
fn hits_are_bounded_and_the_document_marks_the_cut() {
    let document = Document::new(&owned(&[&"a ".repeat(LIMIT + 1)]), 80, "a");
    assert_eq!(document.hits.len(), LIMIT);
    assert!(document.truncated);
    let later = Document::new(&owned(&[&"a ".repeat(LIMIT), "a"]), 80, "a");
    assert_eq!(later.hits.len(), LIMIT);
    assert!(later.truncated);
}

#[test]
fn rows_keep_their_line_and_offset_and_hits_their_row() {
    let document = Document::new(&owned(&["one two three", "", "four"]), 5, "four");
    let placed: Vec<(usize, usize)> = document.rows.iter().map(|row| (row.logical, row.start)).collect();
    assert_eq!(placed.first(), Some(&(0, 0)));
    assert_eq!(placed.last(), Some(&(2, 0)));
    let last = document.rows.len() - 1;
    assert_eq!(document.hits, vec![last]);
    assert_eq!(document.rows[last].pieces[0].bytes, 0..4);
    let flat = Document::new(&owned(&["one two three"]), 0, "");
    assert_eq!(flat.rows.len(), 1);
    assert_eq!(flat.rows[0].text, "one two three");
    assert_eq!(flat.max_width, 13);
}

fn owned(lines: &[&str]) -> Vec<String> {
    lines.iter().map(|line| line.to_string()).collect()
}

#[test]
fn no_wrap_find_reveals_horizontal_match_and_reflow_retains_text() {
    let lines = vec!["a ".repeat(40) + "目标", "last".to_string()];
    let mut find = Find::default();
    let mut scroll = 0;
    find.rebuild_at((0, Some(0), false, 10), &lines, true, &mut scroll);
    scroll = 3;
    find.rebuild_at((0, Some(0), false, 0), &lines, true, &mut scroll);
    assert_eq!(scroll, 0);
    assert_eq!(find.document.as_ref().unwrap().rows.len(), 2);
    find.query = "目标".into();
    find.rebuild_at((0, Some(0), false, 0), &lines, true, &mut scroll);
    find.prepare(&mut scroll, 4);
    assert_eq!(find.current, Some(0));
    assert!(find.pan_ready());
    assert_eq!(find.reveal_horizontal(0, 10), 74);
    find.rebuild_at((0, Some(0), false, 10), &lines, true, &mut scroll);
    find.prepare(&mut scroll, 2);
    assert_eq!(find.current, Some(0));
    assert!(scroll > 0);
}

#[test]
fn active_match_survives_resize_and_cancel_and_styles_are_distinct() {
    let mut find = Find::default();
    find.query = "hit".into();
    let lines = || owned(&["hit then hit"]);
    let mut key = (1, Some(0), false, 20);
    find.rebuild(key, &lines(), true);
    let mut scroll = 0;
    find.prepare(&mut scroll, 1);
    find.next(true);
    find.prepare(&mut scroll, 1);
    let painted = segments(&find.document.as_ref().unwrap().rows[0], find.current);
    assert_eq!(painted[0].2, Paint::Hit);
    assert_eq!(painted[2].2, Paint::Current);
    key.3 = 5;
    find.rebuild(key, &lines(), true);
    find.prepare(&mut scroll, 1);
    assert_eq!((find.current, find.document.as_ref().unwrap().hits.len()), (Some(1), 2));
    assert_eq!(scroll, 2);
    find.begin(scroll, Focus::Detail);
    find.query = "missing".into();
    find.changed();
    find.rebuild(key, &lines(), true);
    find.prepare(&mut scroll, 1);
    let (old_scroll, focus) = find.cancel().unwrap();
    assert_eq!(focus, Focus::Detail);
    scroll = old_scroll;
    find.rebuild(key, &lines(), true);
    find.prepare(&mut scroll, 1);
    assert_eq!(scroll, 2);
    assert_eq!((find.current, find.document.as_ref().unwrap().hits.len()), (Some(1), 2));
}

#[test]
fn matches_cross_soft_wraps_and_unicode_case_expansion() {
    let document = Document::new(&owned(&["hello target world", "İSTANBUL 👩‍💻"]), 8, "target world");
    assert_eq!(document.hits.len(), 1);
    assert!(document.rows.iter().filter(|row| !row.pieces.is_empty()).count() >= 2);
    assert_eq!(ranges("İSTANBUL", "i", 10), vec![0..2]);
    assert_eq!(ranges("x👩‍💻y", "👩", 10), vec![1..12]);
    let marked = "a\u{301}x\u{301}x";
    let document = Document::new(&owned(&[marked]), 30, "\u{301}x");
    assert_eq!(document.hits.len(), 2);
    let row = &document.rows[0];
    let rendered: String = segments(row, Some(1))
        .into_iter()
        .map(|(start, end, _)| &row.text[start..end])
        .collect();
    assert_eq!(rendered, marked);
}

#[test]
fn jumps_wrap_and_search_is_bounded() {
    let mut find = Find::default();
    find.query = "hit".into();
    let key = (1, Some(0), false, 12);
    find.rebuild(key, &owned(&["hit", "middle", "hit"]), true);
    let mut scroll = 0;
    find.prepare(&mut scroll, 1);
    assert_eq!(scroll, 0);
    find.next(true);
    find.prepare(&mut scroll, 1);
    assert_eq!(scroll, 2);
    find.next(true);
    find.prepare(&mut scroll, 1);
    assert_eq!(scroll, 0);
    find.next(false);
    find.prepare(&mut scroll, 1);
    assert_eq!(scroll, 2);
    assert!(find.cached(key, true));
    let document = Document::new(&owned(&[&"a ".repeat(LIMIT + 1)]), 80, "a");
    assert_eq!(document.hits.len(), LIMIT);
    assert!(document.truncated);
}

#[test]
fn search_status_counts_hits_and_marks_the_limit() {
    let mut find = Find::default();
    assert_eq!(find.label(), "0/0 matches · n/N jump · F clear");
    find.query = "needle".into();
    find.rebuild((0, Some(0), true, 80), &vec!["a needle and a needle".to_string()], true);
    find.current = Some(1);
    assert_eq!(find.label(), "2/2 matches · n/N jump · F clear");
    find.current = Some(7);
    assert_eq!(find.label(), "0/2 matches · n/N jump · F clear");
}
