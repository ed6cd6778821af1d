use bookmark_sync::pair::Pair;
use bookmark_sync::remote::{NcBookmark, NextcloudStorage};
use bookmark_sync::storage::{FileStorage, PairConfig, Storage};
use bookmark_sync::types::{Bookmark, Changes, Error, SBookmark, Snapshot, Update};
use bookmark_sync::ConflictResolution;

fn file_side(content: &str) -> Storage {
    Storage::File(FileStorage {
        lastmodified: 0,
        content: Some(content.to_string()),
    })
}

fn pair_cfg(cr: ConflictResolution) -> PairConfig {
    PairConfig {
        a: "a".to_string(),
        b: "b".to_string(),
        conflict_resolution: cr,
    }
}

fn snapshot_of(entries: &[(&str, &str)]) -> Snapshot {
    Snapshot {
        at: 0,
        bookmarks: entries
            .iter()
            .map(|(name, url)| SBookmark {
                name: name.to_string(),
                url: url.to_string(),
                lastmodified: 0,
            })
            .collect(),
    }
}

fn find<'a>(v: &'a [Bookmark], name: &str) -> Option<&'a Bookmark> {
    v.iter().find(|b| b.name == name)
}

fn names_urls(v: &[SBookmark]) -> Vec<(String, String)> {
    let mut out: Vec<(String, String)> = v
        .iter()
        .map(|b| (b.name.clone(), b.url.clone()))
        .collect();
    out.sort();
    out
}

fn is_noop(c: &Changes) -> bool {
    c.new.is_empty() && c.changed.is_empty() && c.deleted.is_empty()
}

fn changes_of(cr: ConflictResolution, a: &str, b: &str, snap: Option<Snapshot>) -> Result<Update, Error> {
    let pair = Pair::new(&pair_cfg(cr), file_side(a), file_side(b), snap);
    pair.changes()
}

#[test]
fn initial_sync_disjoint() {
    let u = changes_of(ConflictResolution::AWins, "work/x u1\n", "home/y u2\n", None).unwrap();
    // A gains home/y -> u2
    assert_eq!(u.a.new.len(), 1);
    let ga = find(&u.a.new, "home/y").unwrap();
    assert_eq!(ga.url, "u2");
    assert_eq!(ga.id, 0);
    assert!(u.a.changed.is_empty() && u.a.deleted.is_empty());
    // B gains work/x -> u1
    assert_eq!(u.b.new.len(), 1);
    let gb = find(&u.b.new, "work/x").unwrap();
    assert_eq!(gb.url, "u1");
    assert_eq!(gb.id, 0);
    assert!(u.b.changed.is_empty() && u.b.deleted.is_empty());
    // snapshot = both
    assert_eq!(
        names_urls(&u.new_state),
        vec![
            ("home/y".to_string(), "u2".to_string()),
            ("work/x".to_string(), "u1".to_string())
        ]
    );
}

#[test]
fn initial_sync_conflict_error_policy() {
    let r = changes_of(ConflictResolution::Error, "p u1\n", "p u2\n", None);
    match r {
        Err(Error::Conflict(path)) => assert_eq!(path, "p"),
        other => panic!("expected a conflict, got {:?}", other.is_ok()),
    }
}

#[test]
fn initial_sync_conflict_a_wins() {
    let u = changes_of(ConflictResolution::AWins, "p u1\n", "p u2\n", None).unwrap();
    // A untouched
    assert!(is_noop(&u.a));
    // B's entry is scheduled into B's changed with B's id and A's url
    assert!(u.b.new.is_empty() && u.b.deleted.is_empty());
    assert_eq!(u.b.changed.len(), 1);
    assert_eq!(u.b.changed[0].name, "p");
    assert_eq!(u.b.changed[0].url, "u1");
    assert_eq!(u.b.changed[0].id, 0); // B's own id for line 0
    assert_eq!(
        names_urls(&u.new_state),
        vec![("p".to_string(), "u1".to_string())]
    );
}

#[test]
fn incremental_one_sided_add() {
    let snap = snapshot_of(&[("p", "u")]);
    let u = changes_of(
        ConflictResolution::Error,
        "p u\nq v\n",
        "p u\n",
        Some(snap),
    )
    .unwrap();
    // A receives nothing
    assert!(is_noop(&u.a));
    // B receives new {q -> v}
    assert_eq!(u.b.new.len(), 1);
    assert_eq!(u.b.new[0].name, "q");
    assert_eq!(u.b.new[0].url, "v");
    assert!(u.b.changed.is_empty() && u.b.deleted.is_empty());
    assert_eq!(
        names_urls(&u.new_state),
        vec![
            ("p".to_string(), "u".to_string()),
            ("q".to_string(), "v".to_string())
        ]
    );
}

#[test]
fn incremental_both_changed_b_wins() {
    let snap = snapshot_of(&[("p", "u")]);
    let u = changes_of(ConflictResolution::BWins, "p u1\n", "p u2\n", Some(snap)).unwrap();
    // A receives changed {p -> u2} with A's id
    assert!(u.a.new.is_empty() && u.a.deleted.is_empty());
    assert_eq!(u.a.changed.len(), 1);
    assert_eq!(u.a.changed[0].name, "p");
    assert_eq!(u.a.changed[0].url, "u2");
    assert_eq!(u.a.changed[0].id, 0); // A's id: line 0 of A's file
    // B receives nothing
    assert!(is_noop(&u.b));
    assert_eq!(
        names_urls(&u.new_state),
        vec![("p".to_string(), "u2".to_string())]
    );
}

#[test]
fn incremental_delete_propagation() {
    let snap = snapshot_of(&[("p", "u")]);
    let u = changes_of(ConflictResolution::Error, "", "p u\n", Some(snap)).unwrap();
    // B receives deleted {p -> id_B(p)}
    assert!(is_noop(&u.a));
    assert!(u.b.new.is_empty() && u.b.changed.is_empty());
    assert_eq!(u.b.deleted.len(), 1);
    assert_eq!(u.b.deleted[0].name, "p");
    assert_eq!(u.b.deleted[0].id, 0); // B's id: line 0 of B's file
    assert!(u.new_state.is_empty());
}

#[test]
fn incremental_same_category_conflict_error() {
    let snap = snapshot_of(&[("p", "u")]);
    let r = changes_of(ConflictResolution::Error, "p u1\n", "p u2\n", Some(snap));
    match r {
        Err(Error::Conflict(path)) => assert_eq!(path, "p"),
        other => panic!("expected a conflict, got {:?}", other.is_ok()),
    }
}

#[test]
fn cross_category_rebind_failure() {
    // A changed p while B deleted it: the rebinding of A's change against
    // B's listing finds no counterpart.
    let snap = snapshot_of(&[("p", "u")]);
    let r = changes_of(ConflictResolution::AWins, "p u1\n", "", Some(snap));
    match r {
        Err(Error::InternalInconsistency) => {}
        other => panic!("expected an internal inconsistency, got {:?}", other.is_ok()),
    }
}

#[test]
fn steady_state_is_noop() {
    let snap = snapshot_of(&[("p", "u"), ("q", "v")]);
    let u = changes_of(
        ConflictResolution::Error,
        "p u\nq v\n",
        "q v\np u\n",
        Some(snap),
    )
    .unwrap();
    assert!(is_noop(&u.a));
    assert!(is_noop(&u.b));
    assert_eq!(
        names_urls(&u.new_state),
        vec![
            ("p".to_string(), "u".to_string()),
            ("q".to_string(), "v".to_string())
        ]
    );
}

#[test]
fn run_then_second_run_is_noop() {
    // Round trip: one successful run over two file sides, then a second
    // run; the second finds empty change sets.
    let mut pair = Pair::new(
        &pair_cfg(ConflictResolution::AWins),
        file_side("work/x u1\n"),
        file_side("home/y u2\n"),
        None,
    );
    let first = pair.run().unwrap();
    assert_eq!(first.new_state.len(), 2);
    let second = pair.run().unwrap();
    assert_eq!(second.new_state.len(), 2);
    let third_changes = pair.changes().unwrap();
    assert!(is_noop(&third_changes.a));
    assert!(is_noop(&third_changes.b));
}

#[test]
fn failed_run_leaves_pair_unchanged() {
    let mut pair = Pair::new(
        &pair_cfg(ConflictResolution::Error),
        file_side("p u1\n"),
        file_side("p u2\n"),
        None,
    );
    assert!(pair.run().is_err());
    assert!(pair.previous_state.is_none());
}

#[test]
fn snapshot_duplicates_collapse_last_wins() {
    let snap = snapshot_of(&[("p", "old"), ("p", "u")]);
    let pair = Pair::new(
        &pair_cfg(ConflictResolution::Error),
        file_side("p u\n"),
        file_side("p u\n"),
        Some(snap),
    );
    let kept = pair.previous_state.as_ref().unwrap();
    assert_eq!(kept.bookmarks.len(), 1);
    assert_eq!(kept.bookmarks[0].url, "u");
    let u = pair.changes().unwrap();
    assert!(is_noop(&u.a) && is_noop(&u.b));
}

#[test]
fn rebinding_uses_destination_side_ids() {
    // Side B is a remote storage whose bookmark for `p` has id 42; A's
    // change to `p` must be scheduled against B under that id.
    let remote = NextcloudStorage {
        folders: vec![],
        bookmarks: vec![NcBookmark {
            id: 42,
            title: "p".to_string(),
            url: "u".to_string(),
            lastmodified: 0,
            folders: vec![],
        }],
    };
    let snap = snapshot_of(&[("p", "u")]);
    let pair = Pair::new(
        &pair_cfg(ConflictResolution::AWins),
        file_side("p u1\n"),
        Storage::Nextcloud(remote),
        Some(snap),
    );
    let u = pair.changes().unwrap();
    assert!(is_noop(&u.a));
    assert_eq!(u.b.changed.len(), 1);
    assert_eq!(u.b.changed[0].name, "p");
    assert_eq!(u.b.changed[0].url, "u1");
    assert_eq!(u.b.changed[0].id, 42);
}

#[test]
fn categories_are_disjoint_and_projection_holds() {
    // A adds `q`, changes `p`, and deletes `r`; B is unchanged. The change
    // set for B keeps the three categories on disjoint paths, and the new
    // snapshot is A's listing (B contributed nothing).
    let snap = snapshot_of(&[("p", "u"), ("r", "w")]);
    let u = changes_of(
        ConflictResolution::Error,
        "p u2\nq v\n",
        "p u\nr w\n",
        Some(snap),
    )
    .unwrap();
    assert!(is_noop(&u.a));
    assert_eq!(u.b.new.len(), 1);
    assert_eq!(u.b.changed.len(), 1);
    assert_eq!(u.b.deleted.len(), 1);
    let mut cats: Vec<String> = Vec::new();
    cats.push(u.b.new[0].name.clone());
    cats.push(u.b.changed[0].name.clone());
    cats.push(u.b.deleted[0].name.clone());
    cats.sort();
    cats.dedup();
    assert_eq!(cats.len(), 3);
    assert_eq!(
        names_urls(&u.new_state),
        vec![
            ("p".to_string(), "u2".to_string()),
            ("q".to_string(), "v".to_string())
        ]
    );
}
