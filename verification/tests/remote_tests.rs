use bookmark_sync::remote::{
    folder_path, split_path, ApplyPlan, FolderRef, NcBookmark, NcFolder, NextcloudStorage,
};
use bookmark_sync::types::{Bookmark, Changes, Deletion};

fn folder(id: i32, title: &str, parent: i32) -> NcFolder {
    NcFolder {
        id,
        title: title.to_string(),
        parent_folder: parent,
    }
}

fn ncb(id: usize, title: &str, url: &str, folders: Vec<i32>) -> NcBookmark {
    NcBookmark {
        id,
        title: title.to_string(),
        url: url.to_string(),
        lastmodified: 0,
        folders,
    }
}

fn bm(name: &str, url: &str) -> Bookmark {
    Bookmark {
        id: 0,
        name: name.to_string(),
        url: url.to_string(),
        lastmodified: 0,
    }
}

fn empty_changes() -> Changes {
    Changes::empty()
}

#[test]
fn folder_path_walks_ancestors() {
    let folders = vec![folder(1, "work", -1), folder(2, "projects", 1)];
    assert_eq!(folder_path(&folders, 2), Some("work/projects".to_string()));
    assert_eq!(folder_path(&folders, 1), Some("work".to_string()));
    assert_eq!(folder_path(&folders, 9), None);
}

#[test]
fn split_path_segments() {
    let segs = split_path(&"a/b/c".to_string());
    assert_eq!(segs, vec!["a".to_string(), "b".to_string(), "c".to_string()]);
    let bare = split_path(&"title".to_string());
    assert_eq!(bare, vec!["title".to_string()]);
}

#[test]
fn remote_list_reconstructs_paths() {
    let st = NextcloudStorage {
        folders: vec![folder(1, "work", -1), folder(2, "projects", 1)],
        bookmarks: vec![ncb(10, "x", "u1", vec![2]), ncb(11, "top", "u2", vec![])],
    };
    let listed = st.list().unwrap();
    assert_eq!(listed.len(), 2);
    let x = listed.iter().find(|b| b.name == "work/projects/x").unwrap();
    assert_eq!(x.url, "u1");
    assert_eq!(x.id, 10);
    let top = listed.iter().find(|b| b.name == "top").unwrap();
    assert_eq!(top.url, "u2");
}

#[test]
fn apply_plans_edits_and_deletes() {
    let st = NextcloudStorage {
        folders: vec![],
        bookmarks: vec![],
    };
    let mut changes = empty_changes();
    changes.changed.push(Bookmark {
        id: 42,
        name: "p".to_string(),
        url: "new".to_string(),
        lastmodified: 0,
    });
    changes.deleted.push(Deletion {
        name: "q".to_string(),
        id: 43,
    });
    let plan: ApplyPlan = st.apply(&changes);
    assert!(plan.folder_creates.is_empty());
    assert!(plan.adds.is_empty());
    assert_eq!(plan.edits.len(), 1);
    assert_eq!(plan.edits[0].id, 42);
    assert_eq!(plan.edits[0].url, "new");
    assert_eq!(plan.deletes, vec![43]);
}

#[test]
fn apply_creates_folder_chain_once() {
    // Two new bookmarks under the same fresh chain: the chain is created
    // once and the second addition reuses it.
    let st = NextcloudStorage {
        folders: vec![],
        bookmarks: vec![],
    };
    let mut changes = empty_changes();
    changes.new.push(bm("a/b/x", "u1"));
    changes.new.push(bm("a/b/y", "u2"));
    let plan = st.apply(&changes);
    assert_eq!(plan.folder_creates.len(), 2);
    assert_eq!(plan.folder_creates[0].title, "a");
    assert_eq!(plan.folder_creates[0].parent, FolderRef::Existing(-1));
    assert_eq!(plan.folder_creates[1].title, "b");
    assert_eq!(plan.folder_creates[1].parent, FolderRef::Created(0));
    assert_eq!(plan.adds.len(), 2);
    assert_eq!(plan.adds[0].title, "x");
    assert_eq!(plan.adds[0].url, "u1");
    assert_eq!(plan.adds[0].folder, FolderRef::Created(1));
    assert_eq!(plan.adds[1].title, "y");
    assert_eq!(plan.adds[1].folder, FolderRef::Created(1));
}

#[test]
fn apply_reuses_existing_folders() {
    let st = NextcloudStorage {
        folders: vec![folder(1, "a", -1)],
        bookmarks: vec![],
    };
    let mut changes = empty_changes();
    changes.new.push(bm("a/b/x", "u1"));
    let plan = st.apply(&changes);
    assert_eq!(plan.folder_creates.len(), 1);
    assert_eq!(plan.folder_creates[0].title, "b");
    assert_eq!(plan.folder_creates[0].parent, FolderRef::Existing(1));
    assert_eq!(plan.adds[0].folder, FolderRef::Created(0));
}

#[test]
fn apply_top_level_bookmark_goes_to_root() {
    let st = NextcloudStorage {
        folders: vec![],
        bookmarks: vec![],
    };
    let mut changes = empty_changes();
    changes.new.push(bm("plain", "u"));
    let plan = st.apply(&changes);
    assert!(plan.folder_creates.is_empty());
    assert_eq!(plan.adds.len(), 1);
    assert_eq!(plan.adds[0].title, "plain");
    assert_eq!(plan.adds[0].folder, FolderRef::Existing(-1));
}

#[test]
fn unknown_folder_falls_back_to_bare_title() {
    let st = NextcloudStorage {
        folders: vec![],
        bookmarks: vec![ncb(5, "lost", "u", vec![99])],
    };
    let listed = st.list().unwrap();
    assert_eq!(listed.len(), 1);
    assert_eq!(listed[0].name, "lost");
    assert_eq!(listed[0].url, "u");
}
