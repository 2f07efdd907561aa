use codex_prompt_history::search::Editor;
use unicode_width::UnicodeWidthStr;

#[test]
fn edits_in_the_middle_without_splitting_unicode_graphemes() {
    let mut editor = Editor::default();
    let mut query = "a👩‍💻e\u{301}中".to_owned();
    editor.begin(&query);
    editor.left(&query);
    editor.backspace(&mut query);
    assert_eq!(query, "a👩‍💻中");
    editor.left(&query);
    editor.delete(&mut query);
    assert_eq!(query, "a中");
    editor.insert(&mut query, "文");
    assert_eq!(query, "a文中");
    editor.home();
    editor.insert(&mut query, "start ");
    assert_eq!(query, "start a文中");
    editor.end(&query);
    editor.delete_word(&mut query);
    assert_eq!(query, "start ");
}

#[test]
fn history_restores_the_draft_and_is_bounded_and_shared() {
    let mut editor = Editor::default();
    for index in 0..25 {
        editor.remember(&index.to_string());
    }
    assert_eq!(editor.history.len(), 20);
    let mut other = Editor::default();
    other.history = editor.history.clone();
    let mut query = "draft".to_owned();
    other.begin(&query);
    other.recall(&mut query, true);
    assert_eq!(query, "24");
    other.recall(&mut query, true);
    assert_eq!(query, "23");
    other.recall(&mut query, false);
    other.recall(&mut query, false);
    assert_eq!(query, "draft");
    other.remember("24");
    assert_eq!(editor.history.len(), 20);
}

#[test]
fn caret_stays_visible_and_paste_is_single_line() {
    let mut editor = Editor::default();
    let mut query = "中文abc👩‍💻".to_owned();
    editor.begin(&query);
    let (text, cursor) = editor.view(&query, 5);
    assert!(text.width() <= 5 && cursor < 5);
    editor.home();
    assert_eq!(editor.view(&query, 5).1, 0);
    editor.insert(&mut query, "x\n\u{1b}y\t");
    assert!(query.starts_with("x y "));
}

#[test]
fn remembered_queries_move_to_the_end_without_duplicates() {
    let mut editor = Editor::default();
    editor.remember("a");
    editor.remember("b");
    editor.remember("a");
    editor.remember("");
    assert_eq!(editor.history, vec!["b".to_owned(), "a".to_owned()]);
}

#[test]
fn caret_moves_by_whole_clusters() {
    let mut editor = Editor::default();
    let query = "e\u{301}x".to_owned();
    editor.begin(&query);
    editor.left(&query);
    editor.left(&query);
    let mut q = query.clone();
    editor.delete(&mut q);
    assert_eq!(q, "x");
    editor.right(&q);
    let mut q2 = q.clone();
    editor.backspace(&mut q2);
    assert_eq!(q2, "");
}

#[test]
fn zero_width_view_is_empty_and_clear_empties_the_query() {
    let mut editor = Editor::default();
    let mut query = "abc".to_owned();
    editor.begin(&query);
    assert_eq!(editor.view(&query, 0), (String::new(), 0));
    editor.clear(&mut query);
    assert!(query.is_empty());
    assert_eq!(editor.view(&query, 3), (String::new(), 0));
}
