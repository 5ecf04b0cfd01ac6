use file_tree::node::Node;
use file_tree::path::split_segments;
use file_tree::session::{App, InputMode};
use file_tree::store::{build_rows, detach_below, reattach, remove_exact, remove_subtree};

fn strings(v: &[&str]) -> Vec<String> {
    v.iter().map(|s| s.to_string()).collect()
}

fn lines(app: &App) -> Vec<String> {
    app.tree_items.iter().map(|(l, _)| l.clone()).collect()
}

fn paths(app: &App) -> Vec<String> {
    app.tree_items.iter().map(|(_, p)| p.clone()).collect()
}

fn sorted(mut v: Vec<String>) -> Vec<String> {
    v.sort();
    v
}

#[test]
fn renders_connectors_and_paths() {
    let app = App::new(strings(&["a/b", "a/c", "d"]));
    assert_eq!(lines(&app), strings(&["├── a/", "│   ├── b", "│   └── c", "└── d"]));
    assert_eq!(paths(&app), strings(&["a", "a/b", "a/c", "d"]));
}

#[test]
fn blank_lines_are_ignored() {
    let app = App::new(strings(&["", "   ", "x"]));
    assert_eq!(lines(&app), strings(&["└── x"]));
    assert_eq!(paths(&app), strings(&["x"]));
}

#[test]
fn entries_are_trimmed_before_splitting() {
    let app = App::new(strings(&["  a/b  "]));
    assert_eq!(lines(&app), strings(&["└── a/", "    └── b"]));
    assert_eq!(paths(&app), strings(&["a", "a/b"]));
}

#[test]
fn empty_segments_are_dropped() {
    let app = App::new(strings(&["/a//b/"]));
    assert_eq!(paths(&app), strings(&["a", "a/b"]));
}

#[test]
fn deep_last_child_indents_with_spaces() {
    let app = App::new(strings(&["x/y/z", "w"]));
    assert_eq!(lines(&app), strings(&["├── w", "└── x/", "    └── y/", "        └── z"]));
}

#[test]
fn children_sorted_by_name() {
    let app = App::new(strings(&["b", "B", "a", "é", "ab"]));
    assert_eq!(paths(&app), strings(&["B", "a", "ab", "b", "é"]));
}

#[test]
fn insertion_order_does_not_matter() {
    let one = App::new(strings(&["a/b", "a/c", "d", "a"]));
    let two = App::new(strings(&["d", "a", "a/c", "a/b", "d"]));
    assert_eq!(one.tree_items, two.tree_items);
}

#[test]
fn leaf_and_directory_merge() {
    let app = App::new(strings(&["a", "a/b"]));
    assert_eq!(lines(&app), strings(&["└── a/", "    └── b"]));
}

#[test]
fn node_insert_and_generate() {
    let mut root = Node::new();
    root.insert(&["a", "b"]);
    root.insert(&["a", "c"]);
    root.insert(&[]);
    root.insert(&["d"]);
    let mut rows = Vec::new();
    root.generate_tree_data("", "", &mut rows);
    let got: Vec<String> = rows.iter().map(|(l, _)| l.clone()).collect();
    assert_eq!(got, strings(&["├── a/", "│   ├── b", "│   └── c", "└── d"]));
    let mut more = vec![("keep".to_string(), "keep".to_string())];
    root.generate_tree_data(">", "root", &mut more);
    assert_eq!(more[0].0, "keep");
    assert_eq!(more[1], (">├── a/".to_string(), "root/a".to_string()));
    assert_eq!(more[4], (">└── d".to_string(), "root/d".to_string()));
}

#[test]
fn split_drops_empty_pieces() {
    assert_eq!(split_segments("a//b/"), vec!["a", "b"]);
    assert_eq!(split_segments("/"), Vec::<&str>::new());
    assert_eq!(split_segments(" x / y"), vec![" x ", " y"]);
}

#[test]
fn build_rows_of_empty_store() {
    assert!(build_rows(&Vec::new()).is_empty());
    assert!(build_rows(&strings(&["", "  ", "/"])).is_empty());
}

#[test]
fn remove_subtree_removes_exactly_the_subtree() {
    let mut v = strings(&["a", "a/b", "ab", "ab/c", "a/b/c", "x/a"]);
    remove_subtree(&mut v, "a");
    assert_eq!(v, strings(&["ab", "ab/c", "x/a"]));
}

#[test]
fn remove_exact_takes_first_only() {
    let mut v = strings(&["a", "b", "a"]);
    assert!(remove_exact(&mut v, "a"));
    assert_eq!(v, strings(&["b", "a"]));
    assert!(!remove_exact(&mut v, "c"));
    assert_eq!(v, strings(&["b", "a"]));
}

#[test]
fn detach_and_reattach() {
    let v = strings(&["a", "a/b", "ab/x", "a//c", "q"]);
    let pending = detach_below(&v, "a");
    assert_eq!(pending, strings(&["b", "/c"]));
    let mut w = strings(&["q"]);
    reattach(&mut w, "z", &pending);
    assert_eq!(w, strings(&["q", "z", "z/b", "z//c"]));
}

#[test]
fn edit_renames_subtree() {
    let mut app = App::new(strings(&["a", "a/b", "a/c"]));
    assert_eq!(app.selected, Some(0));
    app.edit_selected();
    assert_eq!(app.mode, InputMode::Edit);
    assert_eq!(app.pending_children, strings(&["b", "c"]));
    assert_eq!(app.input_buffer, "a");
    assert!(app.raw_paths.is_empty());
    assert!(app.tree_items.is_empty());
    assert_eq!(app.selected, None);
    app.erase_char();
    app.type_char('z');
    assert_eq!(app.input_buffer, "z");
    app.add_path();
    assert_eq!(app.mode, InputMode::Normal);
    assert_eq!(sorted(app.raw_paths.clone()), strings(&["z", "z/b", "z/c"]));
    assert!(app.pending_children.is_empty());
    assert!(app.edit_original_path.is_empty());
    assert_eq!(paths(&app), strings(&["z", "z/b", "z/c"]));
    assert_eq!(app.selected, Some(0));
}

#[test]
fn edit_cancel_restores_entries() {
    let start = strings(&["q", "a/b", "a", "ab", "a/c/d"]);
    let mut app = App::new(start.clone());
    assert_eq!(paths(&app)[0], "a");
    app.edit_selected();
    assert_eq!(sorted(app.raw_paths.clone()), strings(&["ab", "q"]));
    app.cancel_edit();
    assert_eq!(app.mode, InputMode::Normal);
    assert!(app.input_buffer.is_empty());
    assert_eq!(sorted(app.raw_paths.clone()), sorted(start));
}

#[test]
fn edit_commit_same_name_restores_entries() {
    let start = strings(&["a/b", "a", "a/c"]);
    let mut app = App::new(start.clone());
    app.edit_selected();
    app.add_path();
    assert_eq!(sorted(app.raw_paths.clone()), sorted(start));
}

#[test]
fn edit_of_synthetic_directory_adds_its_path() {
    let mut app = App::new(strings(&["a/b"]));
    app.edit_selected();
    app.cancel_edit();
    assert_eq!(app.raw_paths, strings(&["a", "a/b"]));
}

#[test]
fn edit_with_blank_buffer_does_nothing() {
    let mut app = App::new(strings(&["a"]));
    app.edit_selected();
    app.erase_char();
    app.type_char(' ');
    app.add_path();
    assert_eq!(app.mode, InputMode::Edit);
    assert_eq!(app.input_buffer, " ");
    assert!(app.raw_paths.is_empty());
}

#[test]
fn insert_mode_adds_paths() {
    let mut app = App::new(Vec::new());
    assert_eq!(app.selected, None);
    app.begin_insert();
    assert_eq!(app.mode, InputMode::Insert);
    for c in "x/y".chars() {
        app.type_char(c);
    }
    app.add_path();
    assert_eq!(app.mode, InputMode::Insert);
    assert!(app.input_buffer.is_empty());
    assert_eq!(app.raw_paths, strings(&["x/y"]));
    assert_eq!(app.selected, Some(0));
    app.type_char('w');
    app.add_path();
    assert_eq!(paths(&app), strings(&["w", "x", "x/y"]));
    app.finish_insert();
    assert_eq!(app.mode, InputMode::Normal);
}

#[test]
fn typing_ignored_in_normal_mode() {
    let mut app = App::new(strings(&["a"]));
    app.type_char('q');
    app.erase_char();
    assert!(app.input_buffer.is_empty());
    assert_eq!(app.mode, InputMode::Normal);
}

#[test]
fn delete_literal_entry() {
    let mut app = App::new(strings(&["a", "a/b"]));
    app.initiate_delete();
    assert_eq!(app.mode, InputMode::DeleteConfirm);
    app.confirm_delete();
    assert_eq!(app.mode, InputMode::Normal);
    assert_eq!(app.raw_paths, strings(&["a/b"]));
    assert_eq!(app.status_message, "Deleted: a");
}

#[test]
fn delete_synthetic_directory_removes_hierarchy() {
    let mut app = App::new(strings(&["a/b", "a/c", "d"]));
    app.initiate_delete();
    app.confirm_delete();
    assert_eq!(app.raw_paths, strings(&["d"]));
    assert_eq!(paths(&app), strings(&["d"]));
    assert_eq!(app.status_message, "Deleted hierarchy: a");
}

#[test]
fn delete_cancel_keeps_everything() {
    let mut app = App::new(strings(&["a"]));
    app.initiate_delete();
    app.cancel_delete();
    assert_eq!(app.mode, InputMode::Normal);
    assert_eq!(app.raw_paths, strings(&["a"]));
}

#[test]
fn delete_with_nothing_selected() {
    let mut app = App::new(Vec::new());
    app.initiate_delete();
    assert_eq!(app.mode, InputMode::Normal);
    assert_eq!(app.status_message, "Nothing selected to delete.");
}

#[test]
fn cursor_wraps_both_ways() {
    let mut app = App::new(strings(&["a", "b", "c"]));
    assert_eq!(app.selected, Some(0));
    app.previous();
    assert_eq!(app.selected, Some(2));
    app.next();
    assert_eq!(app.selected, Some(0));
    app.next();
    app.next();
    assert_eq!(app.selected, Some(2));
}

#[test]
fn cursor_on_empty_rows_stays_unset() {
    let mut app = App::new(Vec::new());
    app.next();
    assert_eq!(app.selected, None);
    app.previous();
    assert_eq!(app.selected, None);
}

#[test]
fn cursor_clamped_after_delete() {
    let mut app = App::new(strings(&["a", "b"]));
    app.next();
    assert_eq!(app.selected, Some(1));
    app.initiate_delete();
    app.confirm_delete();
    assert_eq!(app.raw_paths, strings(&["a"]));
    assert_eq!(app.selected, Some(0));
    app.initiate_delete();
    app.confirm_delete();
    assert_eq!(app.selected, None);
    assert!(app.tree_items.is_empty());
}

#[test]
fn tree_text_joins_lines() {
    let app = App::new(strings(&["a/b", "c"]));
    assert_eq!(app.tree_text(), "├── a/\n│   └── b\n└── c");
    assert_eq!(App::new(Vec::new()).tree_text(), "");
}
