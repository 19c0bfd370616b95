use disky::tui::app::{parent_path, App};
use disky::tui::tree::DirEntry;

fn node(path: &str, is_dir: bool, size: i64, depth: usize, expanded: bool, loaded: bool, children: Vec<DirEntry>) -> DirEntry {
    let name = path.rsplit('/').next().unwrap_or(path).to_string();
    DirEntry { path: path.to_string(), name, is_dir, size, depth, expanded, loaded, children }
}

fn sample() -> DirEntry {
    node(
        "/r",
        true,
        300,
        0,
        true,
        true,
        vec![
            node("/r/a", true, 200, 1, false, false, vec![]),
            node("/r/b", true, 90, 1, true, true, vec![node("/r/b/x", false, 90, 2, false, false, vec![])]),
            node("/r/c.txt", false, 10, 1, false, false, vec![]),
        ],
    )
}

fn paths(app: &App) -> Vec<&str> {
    app.flat.iter().map(|f| f.path.as_str()).collect()
}

#[test]
fn new_shows_visible_rows_without_root() {
    let app = App::new("snap.db".to_string(), sample());
    assert_eq!(paths(&app), vec!["/r/a", "/r/b", "/r/b/x", "/r/c.txt"]);
    assert_eq!(app.selected, 0);
    assert_eq!(app.selected_path(), Some("/r/a".to_string()));
}

#[test]
fn moving_stays_in_range() {
    let mut app = App::new("snap.db".to_string(), sample());
    app.move_up();
    assert_eq!(app.selected, 0);
    for _ in 0..10 {
        app.move_down();
    }
    assert_eq!(app.selected, 3);
    app.move_up();
    assert_eq!(app.selected_path(), Some("/r/b/x".to_string()));
}

#[test]
fn opening_unloaded_dir_takes_fresh_children() {
    let mut app = App::new("snap.db".to_string(), sample());
    assert_eq!(app.pending_load(), Some(("/r/a".to_string(), 1)));
    app.toggle_selected(Some(vec![node("/r/a/y", false, 200, 2, false, false, vec![])]));
    assert_eq!(paths(&app), vec!["/r/a", "/r/a/y", "/r/b", "/r/b/x", "/r/c.txt"]);
    assert_eq!(app.selected, 0);
    assert_eq!(app.pending_load(), None);
    app.toggle_selected(None);
    assert_eq!(paths(&app), vec!["/r/a", "/r/b", "/r/b/x", "/r/c.txt"]);
}

#[test]
fn left_collapses_or_selects_parent() {
    let mut app = App::new("snap.db".to_string(), sample());
    app.move_down();
    app.move_down();
    assert_eq!(app.selected_path(), Some("/r/b/x".to_string()));
    app.on_left();
    assert_eq!(app.selected_path(), Some("/r/b".to_string()));
    app.on_left();
    assert_eq!(paths(&app), vec!["/r/a", "/r/b", "/r/c.txt"]);
    assert_eq!(app.selected_path(), Some("/r/b".to_string()));
}

#[test]
fn parent_paths() {
    assert_eq!(parent_path("/a/b/c"), "/a/b");
    assert_eq!(parent_path("/a"), "/");
    assert_eq!(parent_path("rel"), "/");
}

#[test]
fn icons_and_sizes() {
    let d = node("/d", true, 0, 1, false, false, vec![]);
    assert_eq!(d.icon(), "▶");
    assert_eq!(d.expanded_icon(), "▶");
    assert_eq!(d.size_str(), "-");
    let f = node("/f", false, 2048, 1, false, false, vec![]);
    assert_eq!(f.icon(), " ");
    assert_eq!(f.expanded_icon(), " ");
    assert_eq!(f.size_str(), "2 KiB");
    let o = node("/o", true, 5, 1, true, true, vec![]);
    assert_eq!(o.expanded_icon(), "▼");
}

#[test]
fn closing_after_opening_restores_rows() {
    let mut app = App::new("snap.db".to_string(), sample());
    app.move_down();
    assert_eq!(app.selected_path(), Some("/r/b".to_string()));
    app.toggle_selected(None);
    let closed = paths(&app).iter().map(|s| s.to_string()).collect::<Vec<_>>();
    assert_eq!(closed, vec!["/r/a", "/r/b", "/r/c.txt"]);
    app.toggle_selected(None);
    assert_eq!(paths(&app), vec!["/r/a", "/r/b", "/r/b/x", "/r/c.txt"]);
    app.toggle_selected(None);
    assert_eq!(paths(&app), closed);
}
