use termplay::browse::{App, AppMode, SearchResult};

fn result(title: &str) -> SearchResult {
    SearchResult {
        id: title.to_string(),
        title: title.to_string(),
        channel: None,
        duration: Some(61),
        url: format!("https://example.com/{}", title),
    }
}

#[test]
fn new_app_starts_in_search_mode() {
    let app = App::new();
    assert_eq!(app.mode, AppMode::Search);
    assert!(app.results.is_empty());
    assert!(app.get_selected_result().is_none());
}

#[test]
fn selection_wraps_both_ways() {
    let mut app = App::new();
    app.results = vec![result("a"), result("b"), result("c")];
    app.select_previous();
    assert_eq!(app.selected_index, 2);
    app.select_next();
    assert_eq!(app.selected_index, 0);
    app.select_next();
    assert_eq!(app.get_selected_result().unwrap().title, "b");
}

#[test]
fn selection_stays_without_results() {
    let mut app = App::new();
    app.select_next();
    app.select_previous();
    assert_eq!(app.selected_index, 0);
}
