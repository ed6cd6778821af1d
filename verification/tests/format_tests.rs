use bookmark_sync::storage::FileStorage;
use bookmark_sync::textfile::{read_file_content, render_state};
use bookmark_sync::types::{dedup_bookmarks, SBookmark};

fn sb(name: &str, url: &str) -> SBookmark {
    SBookmark {
        name: name.to_string(),
        url: url.to_string(),
        lastmodified: 7,
    }
}

#[test]
fn parse_simple_lines() {
    let v = read_file_content(5, &"work/x u1\nhome/y u2\n".to_string());
    assert_eq!(v.len(), 2);
    assert_eq!(v[0].name, "work/x");
    assert_eq!(v[0].url, "u1");
    assert_eq!(v[0].id, 0);
    assert_eq!(v[0].lastmodified, 5);
    assert_eq!(v[1].name, "home/y");
    assert_eq!(v[1].url, "u2");
    assert_eq!(v[1].id, 1);
}

#[test]
fn parse_line_without_whitespace() {
    // A line with no whitespace is all path, with an empty url.
    let v = read_file_content(0, &"nowhitespace\n".to_string());
    assert_eq!(v.len(), 1);
    assert_eq!(v[0].name, "nowhitespace");
    assert_eq!(v[0].url, "");
}

#[test]
fn parse_splits_at_last_whitespace() {
    let v = read_file_content(0, &"path with spaces http://u\n".to_string());
    assert_eq!(v.len(), 1);
    assert_eq!(v[0].name, "path with spaces");
    assert_eq!(v[0].url, "http://u");
}

#[test]
fn parse_skips_empty_lines_but_counts_them() {
    let v = read_file_content(0, &"a u1\n\nb u2\n".to_string());
    assert_eq!(v.len(), 2);
    assert_eq!(v[0].name, "a");
    assert_eq!(v[0].id, 0);
    assert_eq!(v[1].name, "b");
    assert_eq!(v[1].id, 2); // line index, empty line counted
}

#[test]
fn parse_without_trailing_newline() {
    let v = read_file_content(0, &"a u1\nb u2".to_string());
    assert_eq!(v.len(), 2);
    assert_eq!(v[1].name, "b");
    assert_eq!(v[1].url, "u2");
}

#[test]
fn render_one_line_per_entry() {
    let text = render_state(&vec![sb("work/x", "u1"), sb("home/y", "u2")]);
    assert_eq!(text, "work/x u1\nhome/y u2\n");
}

#[test]
fn render_then_parse_round_trips() {
    let state = vec![sb("a", "u1"), sb("path with spaces", "u2"), sb("empty", "")];
    let text = render_state(&state);
    let back = read_file_content(7, &text);
    assert_eq!(back.len(), state.len());
    for (b, s) in back.iter().zip(state.iter()) {
        assert_eq!(b.name, s.name);
        assert_eq!(b.url, s.url);
    }
}

#[test]
fn dedup_keeps_last_occurrence() {
    let v = read_file_content(0, &"p old\nq v\np new\n".to_string());
    let d = dedup_bookmarks(&v);
    assert_eq!(d.len(), 2);
    let p = d.iter().find(|b| b.name == "p").unwrap();
    assert_eq!(p.url, "new");
}

#[test]
fn missing_file_lists_empty() {
    let fs = FileStorage {
        lastmodified: 0,
        content: None,
    };
    assert!(fs.list().unwrap().is_empty());
}

#[test]
fn file_apply_overwrites_from_snapshot() {
    let mut fs = FileStorage {
        lastmodified: 3,
        content: Some("old old\n".to_string()),
    };
    let text = fs.apply(&vec![sb("p", "u")]);
    assert_eq!(text, "p u\n");
    assert_eq!(fs.content.as_deref(), Some("p u\n"));
    let listed = fs.list().unwrap();
    assert_eq!(listed.len(), 1);
    assert_eq!(listed[0].name, "p");
    assert_eq!(listed[0].url, "u");
}

#[test]
fn parse_splits_at_any_ascii_whitespace() {
    // Vertical tab and form feed also separate path and url.
    let v = read_file_content(0, &"a\x0bu1\nb\x0cu2\n".to_string());
    assert_eq!(v.len(), 2);
    assert_eq!(v[0].name, "a");
    assert_eq!(v[0].url, "u1");
    assert_eq!(v[1].name, "b");
    assert_eq!(v[1].url, "u2");
}
