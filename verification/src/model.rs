//! Mathematical model of bookmark listings.
//!
//! A live listing is abstracted as a sequence of [`BookmarkModel`] records and
//! a snapshot as a sequence of [`SBookmarkModel`] records. All contracts of
//! the engine are stated over these models: membership of a path, the url and
//! id bound to a path, uniqueness of paths within one listing, and the
//! "last occurrence wins" reduction used to collapse duplicate paths.

use vstd::prelude::*;

verus! {

/// Model of one live bookmark: the backend-local id, the `/`-separated
/// logical path, the url, and the modification time.
pub struct BookmarkModel {
    pub id: int,
    pub name: Seq<char>,
    pub url: Seq<char>,
    pub lastmodified: int,
}

/// Model of one snapshot entry; ids are deliberately absent because they are
/// backend-local and meaningless across sides.
pub struct SBookmarkModel {
    pub name: Seq<char>,
    pub url: Seq<char>,
    pub lastmodified: int,
}

impl BookmarkModel {
    /// The snapshot projection of a live bookmark: the id is erased.
    pub open spec fn strip(self) -> SBookmarkModel {
        SBookmarkModel { name: self.name, url: self.url, lastmodified: self.lastmodified }
    }
}

/// Some entry of `s` carries path `p`.
pub open spec fn has_path(s: Seq<BookmarkModel>, p: Seq<char>) -> bool {
    exists|i: int| 0 <= i < s.len() && s[i].name == p
}

/// The index of the entry of `s` carrying path `p`.
pub open spec fn idx_of(s: Seq<BookmarkModel>, p: Seq<char>) -> int {
    choose|i: int| 0 <= i < s.len() && s[i].name == p
}

/// The url bound to path `p` in `s`.
pub open spec fn url_at(s: Seq<BookmarkModel>, p: Seq<char>) -> Seq<char> {
    s[idx_of(s, p)].url
}

/// The backend-local id bound to path `p` in `s`.
pub open spec fn id_at(s: Seq<BookmarkModel>, p: Seq<char>) -> int {
    s[idx_of(s, p)].id
}

/// The modification time bound to path `p` in `s`.
pub open spec fn lastmodified_at(s: Seq<BookmarkModel>, p: Seq<char>) -> int {
    s[idx_of(s, p)].lastmodified
}

/// Paths are pairwise distinct within `s`.
pub open spec fn uniq_paths(s: Seq<BookmarkModel>) -> bool {
    forall|i: int, j: int|
        0 <= i < s.len() && 0 <= j < s.len() && s[i].name == s[j].name ==> i == j
}

/// Some entry of the snapshot `s` carries path `p`.
pub open spec fn s_has_path(s: Seq<SBookmarkModel>, p: Seq<char>) -> bool {
    exists|i: int| 0 <= i < s.len() && s[i].name == p
}

/// The index of the snapshot entry carrying path `p`.
pub open spec fn s_idx_of(s: Seq<SBookmarkModel>, p: Seq<char>) -> int {
    choose|i: int| 0 <= i < s.len() && s[i].name == p
}

/// The url bound to path `p` in the snapshot `s`.
pub open spec fn s_url_at(s: Seq<SBookmarkModel>, p: Seq<char>) -> Seq<char> {
    s[s_idx_of(s, p)].url
}

/// The modification time bound to path `p` in the snapshot `s`.
pub open spec fn s_lastmodified_at(s: Seq<SBookmarkModel>, p: Seq<char>) -> int {
    s[s_idx_of(s, p)].lastmodified
}

/// Paths are pairwise distinct within the snapshot `s`.
pub open spec fn s_uniq_paths(s: Seq<SBookmarkModel>) -> bool {
    forall|i: int, j: int|
        0 <= i < s.len() && 0 <= j < s.len() && s[i].name == s[j].name ==> i == j
}

/// `e` is, field for field, an entry of the listing `s`.
pub open spec fn entry_of(s: Seq<BookmarkModel>, e: BookmarkModel) -> bool {
    exists|i: int| 0 <= i < s.len() && s[i] == e
}

/// Both listings bind exactly the same paths to the same urls.
pub open spec fn same_entries(x: Seq<BookmarkModel>, s: Seq<SBookmarkModel>) -> bool {
    &&& forall|p: Seq<char>| has_path(x, p) <==> s_has_path(s, p)
    &&& forall|p: Seq<char>| has_path(x, p) ==> url_at(x, p) == s_url_at(s, p)
}

/// The "last occurrence wins" collapse of duplicate paths: an entry survives
/// exactly when no later entry carries the same path.
pub open spec fn survives(s: Seq<BookmarkModel>, i: int) -> bool {
    0 <= i < s.len() && forall|j: int| i < j < s.len() ==> s[j].name != s[i].name
}

/// A deduplicated copy of `s`: the surviving entries of `s`, in order.
pub open spec fn dedup_model(s: Seq<BookmarkModel>) -> Seq<BookmarkModel>
    decreases s.len(),
{
    if s.len() == 0 {
        Seq::empty()
    } else {
        let rest = dedup_model(s.drop_first());
        if has_path(s.drop_first(), s[0].name) {
            rest
        } else {
            seq![s[0]] + rest
        }
    }
}

/// Membership in the deduplicated listing coincides with membership in the
/// original, the binding kept for each path is the last one, and the result
/// has pairwise distinct paths.
pub proof fn lemma_dedup_model(s: Seq<BookmarkModel>)
    ensures
        uniq_paths(dedup_model(s)),
        forall|p: Seq<char>| has_path(dedup_model(s), p) <==> has_path(s, p),
        forall|i: int|
            0 <= i < dedup_model(s).len() ==> #[trigger] entry_of(s, dedup_model(s)[i]),
        forall|i: int| survives(s, i) ==> #[trigger] entry_of(dedup_model(s), s[i]),
    decreases s.len(),
{
    if s.len() == 0 {
    } else {
        let rest = s.drop_first();
        lemma_dedup_model(rest);
        assert forall|p: Seq<char>| has_path(s, p) implies has_path(dedup_model(s), p) by {
            let i = idx_of(s, p);
            if i == 0 && !has_path(rest, s[0].name) {
                assert(dedup_model(s)[0] == s[0]);
            } else {
                if i > 0 {
                    assert(rest[i - 1].name == p);
                }
                assert(has_path(rest, p));
                let k = idx_of(dedup_model(rest), p);
                if has_path(rest, s[0].name) {
                    assert(dedup_model(s)[k].name == p);
                } else {
                    assert(dedup_model(s)[k + 1].name == p);
                }
            }
        }
        assert forall|p: Seq<char>| has_path(dedup_model(s), p) implies has_path(s, p) by {
            let i = idx_of(dedup_model(s), p);
            if has_path(rest, s[0].name) {
                assert(dedup_model(rest)[i].name == p);
                assert(has_path(dedup_model(rest), p));
                assert(has_path(rest, p));
                let j = idx_of(rest, p);
                assert(rest[j].name == p);
                assert(rest[j] == s[j + 1]);
            } else {
                if i == 0 {
                    assert(s[0].name == p);
                } else {
                    assert(dedup_model(rest)[i - 1].name == p);
                    assert(has_path(dedup_model(rest), p));
                    assert(has_path(rest, p));
                    let j = idx_of(rest, p);
                    assert(rest[j].name == p);
                    assert(rest[j] == s[j + 1]);
                }
            }
        }
        assert forall|i: int|
            0 <= i < dedup_model(s).len() implies #[trigger] entry_of(s, dedup_model(s)[i]) by {
            if has_path(rest, s[0].name) {
                let e = dedup_model(rest)[i];
                assert(entry_of(rest, e));
                let j = choose|j: int| 0 <= j < rest.len() && rest[j] == e;
                assert(rest[j] == e);
                assert(rest[j] == s[j + 1]);
            } else {
                if i == 0 {
                    assert(s[0] == dedup_model(s)[0]);
                } else {
                    let e = dedup_model(rest)[i - 1];
                    assert(dedup_model(s)[i] == e);
                    assert(entry_of(rest, e));
                    let j = choose|j: int| 0 <= j < rest.len() && rest[j] == e;
                    assert(rest[j] == e);
                    assert(rest[j] == s[j + 1]);
                }
            }
        }
        assert forall|i: int| survives(s, i) implies #[trigger] entry_of(dedup_model(s), s[i]) by {
            if i == 0 {
                assert(!has_path(rest, s[0].name)) by {
                    if has_path(rest, s[0].name) {
                        let j = idx_of(rest, s[0].name);
                        assert(s[j + 1].name == s[0].name);
                    }
                }
                assert(dedup_model(s)[0] == s[0]);
            } else {
                assert(survives(rest, i - 1)) by {
                    assert forall|j: int| #![trigger rest[j]] i - 1 < j < rest.len() implies rest[j].name
                        != rest[i - 1].name by {
                        assert(rest[j] == s[j + 1]);
                    }
                }
                assert(entry_of(dedup_model(rest), rest[i - 1]));
                let k = choose|k: int|
                    0 <= k < dedup_model(rest).len() && dedup_model(rest)[k] == rest[i - 1];
                if has_path(rest, s[0].name) {
                    assert(dedup_model(s)[k] == s[i]);
                } else {
                    assert(dedup_model(s)[k + 1] == s[i]);
                }
            }
        }
        assert(uniq_paths(dedup_model(s))) by {
            if !has_path(rest, s[0].name) {
                assert forall|i: int, j: int|
                    0 <= i < dedup_model(s).len() && 0 <= j < dedup_model(s).len()
                        && dedup_model(s)[i].name == dedup_model(s)[j].name implies i == j by {
                    if i > 0 && j == 0 {
                        assert(entry_of(rest, dedup_model(rest)[i - 1]));
                        assert(has_path(rest, s[0].name));
                    }
                    if j > 0 && i == 0 {
                        assert(entry_of(rest, dedup_model(rest)[j - 1]));
                        assert(has_path(rest, s[0].name));
                    }
                }
            }
        }
    }
}

/// Model of one scheduled deletion: the path and the destination-side id.
pub struct DeletionModel {
    pub name: Seq<char>,
    pub id: int,
}

/// Some deletion in `s` carries path `p`.
pub open spec fn d_has_path(s: Seq<DeletionModel>, p: Seq<char>) -> bool {
    exists|i: int| 0 <= i < s.len() && s[i].name == p
}

/// The index of the deletion carrying path `p`.
pub open spec fn d_idx_of(s: Seq<DeletionModel>, p: Seq<char>) -> int {
    choose|i: int| 0 <= i < s.len() && s[i].name == p
}

/// The id carried by the deletion of path `p`.
pub open spec fn d_id_at(s: Seq<DeletionModel>, p: Seq<char>) -> int {
    s[d_idx_of(s, p)].id
}

/// Paths are pairwise distinct within the deletion list `s`.
pub open spec fn d_uniq_paths(s: Seq<DeletionModel>) -> bool {
    forall|i: int, j: int|
        0 <= i < s.len() && 0 <= j < s.len() && s[i].name == s[j].name ==> i == j
}

/// In a listing with pairwise distinct paths, the index chosen for a path is
/// the index of the one entry that carries it.
pub proof fn lemma_idx_unique(s: Seq<BookmarkModel>, i: int)
    requires
        uniq_paths(s),
        0 <= i < s.len(),
    ensures
        idx_of(s, s[i].name) == i,
{
    assert(has_path(s, s[i].name));
}

/// The snapshot counterpart of [`lemma_idx_unique`].
pub proof fn lemma_s_idx_unique(s: Seq<SBookmarkModel>, i: int)
    requires
        s_uniq_paths(s),
        0 <= i < s.len(),
    ensures
        s_idx_of(s, s[i].name) == i,
{
    assert(s_has_path(s, s[i].name));
}

/// The deletion counterpart of [`lemma_idx_unique`].
pub proof fn lemma_d_idx_unique(s: Seq<DeletionModel>, i: int)
    requires
        d_uniq_paths(s),
        0 <= i < s.len(),
    ensures
        d_idx_of(s, s[i].name) == i,
{
    assert(d_has_path(s, s[i].name));
}

/// Every path that occurs in a listing has a last occurrence, and that
/// occurrence survives the duplicate collapse.
pub proof fn lemma_last_occurrence(s: Seq<BookmarkModel>, i: int)
    requires
        0 <= i < s.len(),
    ensures
        exists|k: int| i <= k < s.len() && survives(s, k) && s[k].name == s[i].name,
    decreases s.len() - i,
{
    if survives(s, i) {
    } else {
        let j = choose|j: int| i < j < s.len() && s[j].name == s[i].name;
        lemma_last_occurrence(s, j);
        let k = choose|k: int| j <= k < s.len() && survives(s, k) && s[k].name == s[j].name;
        assert(i <= k < s.len() && survives(s, k) && s[k].name == s[i].name);
    }
}

/// `e` is, field for field, an entry of the snapshot `s`.
pub open spec fn s_entry_of(s: Seq<SBookmarkModel>, e: SBookmarkModel) -> bool {
    exists|i: int| 0 <= i < s.len() && s[i] == e
}

/// The snapshot counterpart of [`survives`].
pub open spec fn s_survives(s: Seq<SBookmarkModel>, i: int) -> bool {
    0 <= i < s.len() && forall|j: int| i < j < s.len() ==> s[j].name != s[i].name
}

/// The snapshot counterpart of [`dedup_model`].
pub open spec fn s_dedup_model(s: Seq<SBookmarkModel>) -> Seq<SBookmarkModel>
    decreases s.len(),
{
    if s.len() == 0 {
        Seq::empty()
    } else {
        let rest = s_dedup_model(s.drop_first());
        if s_has_path(s.drop_first(), s[0].name) {
            rest
        } else {
            seq![s[0]] + rest
        }
    }
}

/// The snapshot counterpart of [`lemma_dedup_model`].
pub proof fn lemma_s_dedup_model(s: Seq<SBookmarkModel>)
    ensures
        s_uniq_paths(s_dedup_model(s)),
        forall|p: Seq<char>| s_has_path(s_dedup_model(s), p) <==> s_has_path(s, p),
        forall|i: int|
            0 <= i < s_dedup_model(s).len() ==> #[trigger] s_entry_of(s, s_dedup_model(s)[i]),
        forall|i: int| s_survives(s, i) ==> #[trigger] s_entry_of(s_dedup_model(s), s[i]),
    decreases s.len(),
{
    if s.len() == 0 {
    } else {
        let rest = s.drop_first();
        lemma_s_dedup_model(rest);
        assert forall|p: Seq<char>| s_has_path(s, p) implies s_has_path(s_dedup_model(s), p) by {
            let i = s_idx_of(s, p);
            if i == 0 && !s_has_path(rest, s[0].name) {
                assert(s_dedup_model(s)[0] == s[0]);
            } else {
                if i > 0 {
                    assert(rest[i - 1].name == p);
                }
                assert(s_has_path(rest, p));
                let k = s_idx_of(s_dedup_model(rest), p);
                if s_has_path(rest, s[0].name) {
                    assert(s_dedup_model(s)[k].name == p);
                } else {
                    assert(s_dedup_model(s)[k + 1].name == p);
                }
            }
        }
        assert forall|p: Seq<char>| s_has_path(s_dedup_model(s), p) implies s_has_path(s, p) by {
            let i = s_idx_of(s_dedup_model(s), p);
            if s_has_path(rest, s[0].name) {
                assert(s_dedup_model(rest)[i].name == p);
                assert(s_has_path(s_dedup_model(rest), p));
                assert(s_has_path(rest, p));
                let j = s_idx_of(rest, p);
                assert(rest[j].name == p);
                assert(rest[j] == s[j + 1]);
            } else {
                if i == 0 {
                    assert(s[0].name == p);
                } else {
                    assert(s_dedup_model(rest)[i - 1].name == p);
                    assert(s_has_path(s_dedup_model(rest), p));
                    assert(s_has_path(rest, p));
                    let j = s_idx_of(rest, p);
                    assert(rest[j].name == p);
                    assert(rest[j] == s[j + 1]);
                }
            }
        }
        assert forall|i: int|
            0 <= i < s_dedup_model(s).len() implies #[trigger] s_entry_of(
            s,
            s_dedup_model(s)[i],
        ) by {
            if s_has_path(rest, s[0].name) {
                let e = s_dedup_model(rest)[i];
                assert(s_entry_of(rest, e));
                let j = choose|j: int| 0 <= j < rest.len() && rest[j] == e;
                assert(rest[j] == e);
                assert(rest[j] == s[j + 1]);
            } else {
                if i == 0 {
                    assert(s[0] == s_dedup_model(s)[0]);
                } else {
                    let e = s_dedup_model(rest)[i - 1];
                    assert(s_dedup_model(s)[i] == e);
                    assert(s_entry_of(rest, e));
                    let j = choose|j: int| 0 <= j < rest.len() && rest[j] == e;
                    assert(rest[j] == e);
                    assert(rest[j] == s[j + 1]);
                }
            }
        }
        assert forall|i: int| s_survives(s, i) implies #[trigger] s_entry_of(
            s_dedup_model(s),
            s[i],
        ) by {
            if i == 0 {
                assert(!s_has_path(rest, s[0].name)) by {
                    if s_has_path(rest, s[0].name) {
                        let j = s_idx_of(rest, s[0].name);
                        assert(s[j + 1].name == s[0].name);
                    }
                }
                assert(s_dedup_model(s)[0] == s[0]);
            } else {
                assert(s_survives(rest, i - 1)) by {
                    assert forall|j: int| #![trigger rest[j]] i - 1 < j < rest.len() implies rest[j].name
                        != rest[i - 1].name by {
                        assert(rest[j] == s[j + 1]);
                    }
                }
                assert(s_entry_of(s_dedup_model(rest), rest[i - 1]));
                let k = choose|k: int|
                    0 <= k < s_dedup_model(rest).len() && s_dedup_model(rest)[k] == rest[i - 1];
                if s_has_path(rest, s[0].name) {
                    assert(s_dedup_model(s)[k] == s[i]);
                } else {
                    assert(s_dedup_model(s)[k + 1] == s[i]);
                }
            }
        }
        assert(s_uniq_paths(s_dedup_model(s))) by {
            if !s_has_path(rest, s[0].name) {
                assert forall|i: int, j: int|
                    0 <= i < s_dedup_model(s).len() && 0 <= j < s_dedup_model(s).len()
                        && s_dedup_model(s)[i].name == s_dedup_model(s)[j].name implies i == j by {
                    if i > 0 && j == 0 {
                        assert(s_dedup_model(rest)[i - 1].name == s[0].name);
                        assert(s_has_path(s_dedup_model(rest), s[0].name));
                    }
                    if j > 0 && i == 0 {
                        assert(s_dedup_model(rest)[j - 1].name == s[0].name);
                        assert(s_has_path(s_dedup_model(rest), s[0].name));
                    }
                }
            }
        }
    }
}

/// Pushing an entry extends path membership by exactly that entry's path.
pub proof fn lemma_has_path_push(s: Seq<BookmarkModel>, e: BookmarkModel, p: Seq<char>)
    ensures
        has_path(s.push(e), p) <==> (has_path(s, p) || e.name == p),
{
    if has_path(s.push(e), p) {
        let i = idx_of(s.push(e), p);
        if i < s.len() {
            assert(s[i] == s.push(e)[i]);
            assert(has_path(s, p));
        } else {
            assert(s.push(e)[s.len() as int] == e);
        }
    }
    if has_path(s, p) {
        let i = idx_of(s, p);
        assert(s.push(e)[i] == s[i]);
        assert(has_path(s.push(e), p));
    }
    if e.name == p {
        assert(s.push(e)[s.len() as int] == e);
        assert(has_path(s.push(e), p));
    }
}

/// The snapshot counterpart of [`lemma_has_path_push`].
pub proof fn lemma_s_has_path_push(s: Seq<SBookmarkModel>, e: SBookmarkModel, p: Seq<char>)
    ensures
        s_has_path(s.push(e), p) <==> (s_has_path(s, p) || e.name == p),
{
    if s_has_path(s.push(e), p) {
        let i = s_idx_of(s.push(e), p);
        if i < s.len() {
            assert(s[i] == s.push(e)[i]);
            assert(s_has_path(s, p));
        } else {
            assert(s.push(e)[s.len() as int] == e);
        }
    }
    if s_has_path(s, p) {
        let i = s_idx_of(s, p);
        assert(s.push(e)[i] == s[i]);
        assert(s_has_path(s.push(e), p));
    }
    if e.name == p {
        assert(s.push(e)[s.len() as int] == e);
        assert(s_has_path(s.push(e), p));
    }
}

/// The deletion counterpart of [`lemma_has_path_push`].
pub proof fn lemma_d_has_path_push(s: Seq<DeletionModel>, e: DeletionModel, p: Seq<char>)
    ensures
        d_has_path(s.push(e), p) <==> (d_has_path(s, p) || e.name == p),
{
    if d_has_path(s.push(e), p) {
        let i = d_idx_of(s.push(e), p);
        if i < s.len() {
            assert(s[i] == s.push(e)[i]);
            assert(d_has_path(s, p));
        } else {
            assert(s.push(e)[s.len() as int] == e);
        }
    }
    if d_has_path(s, p) {
        let i = d_idx_of(s, p);
        assert(s.push(e)[i] == s[i]);
        assert(d_has_path(s.push(e), p));
    }
    if e.name == p {
        assert(s.push(e)[s.len() as int] == e);
        assert(d_has_path(s.push(e), p));
    }
}

/// Pushing an entry with a fresh path preserves path distinctness.
pub proof fn lemma_uniq_push(s: Seq<BookmarkModel>, e: BookmarkModel)
    requires
        uniq_paths(s),
        !has_path(s, e.name),
    ensures
        uniq_paths(s.push(e)),
{
    let t = s.push(e);
    assert forall|i: int, j: int|
        0 <= i < t.len() && 0 <= j < t.len() && t[i].name == t[j].name implies i == j by {
        if i < s.len() && j < s.len() {
            assert(s[i] == t[i] && s[j] == t[j]);
        } else if i < s.len() && j == s.len() {
            assert(s[i] == t[i]);
            assert(has_path(s, e.name));
        } else if j < s.len() && i == s.len() {
            assert(s[j] == t[j]);
            assert(has_path(s, e.name));
        }
    }
}

/// The snapshot counterpart of [`lemma_uniq_push`].
pub proof fn lemma_s_uniq_push(s: Seq<SBookmarkModel>, e: SBookmarkModel)
    requires
        s_uniq_paths(s),
        !s_has_path(s, e.name),
    ensures
        s_uniq_paths(s.push(e)),
{
    let t = s.push(e);
    assert forall|i: int, j: int|
        0 <= i < t.len() && 0 <= j < t.len() && t[i].name == t[j].name implies i == j by {
        if i < s.len() && j < s.len() {
            assert(s[i] == t[i] && s[j] == t[j]);
        } else if i < s.len() && j == s.len() {
            assert(s[i] == t[i]);
            assert(s_has_path(s, e.name));
        } else if j < s.len() && i == s.len() {
            assert(s[j] == t[j]);
            assert(s_has_path(s, e.name));
        }
    }
}

/// The deletion counterpart of [`lemma_uniq_push`].
pub proof fn lemma_d_uniq_push(s: Seq<DeletionModel>, e: DeletionModel)
    requires
        d_uniq_paths(s),
        !d_has_path(s, e.name),
    ensures
        d_uniq_paths(s.push(e)),
{
    let t = s.push(e);
    assert forall|i: int, j: int|
        0 <= i < t.len() && 0 <= j < t.len() && t[i].name == t[j].name implies i == j by {
        if i < s.len() && j < s.len() {
            assert(s[i] == t[i] && s[j] == t[j]);
        } else if i < s.len() && j == s.len() {
            assert(s[i] == t[i]);
            assert(d_has_path(s, e.name));
        } else if j < s.len() && i == s.len() {
            assert(s[j] == t[j]);
            assert(d_has_path(s, e.name));
        }
    }
}

/// In a listing with pairwise distinct paths, an entry's path does not occur
/// before that entry.
pub proof fn lemma_take_fresh(s: Seq<BookmarkModel>, i: int)
    requires
        uniq_paths(s),
        0 <= i < s.len(),
    ensures
        !has_path(s.take(i), s[i].name),
{
    if has_path(s.take(i), s[i].name) {
        let j = idx_of(s.take(i), s[i].name);
        assert(s.take(i)[j] == s[j]);
    }
}

/// The snapshot counterpart of [`lemma_take_fresh`].
pub proof fn lemma_s_take_fresh(s: Seq<SBookmarkModel>, i: int)
    requires
        s_uniq_paths(s),
        0 <= i < s.len(),
    ensures
        !s_has_path(s.take(i), s[i].name),
{
    if s_has_path(s.take(i), s[i].name) {
        let j = s_idx_of(s.take(i), s[i].name);
        assert(s.take(i)[j] == s[j]);
    }
}

/// `e` is, field for field, an entry of the deletion list `s`.
pub open spec fn d_entry_of(s: Seq<DeletionModel>, e: DeletionModel) -> bool {
    exists|i: int| 0 <= i < s.len() && s[i] == e
}

/// The deletion counterpart of [`lemma_take_fresh`].
pub proof fn lemma_d_take_fresh(s: Seq<DeletionModel>, i: int)
    requires
        d_uniq_paths(s),
        0 <= i < s.len(),
    ensures
        !d_has_path(s.take(i), s[i].name),
{
    if d_has_path(s.take(i), s[i].name) {
        let j = d_idx_of(s.take(i), s[i].name);
        assert(s.take(i)[j] == s[j]);
    }
}

/// Pushing an entry with a fresh path keeps every existing binding (url and
/// modification time) and binds the new path to the new entry's fields.
pub proof fn lemma_s_url_at_push(s: Seq<SBookmarkModel>, e: SBookmarkModel)
    requires
        s_uniq_paths(s),
        !s_has_path(s, e.name),
    ensures
        s_uniq_paths(s.push(e)),
        forall|p: Seq<char>|
            s_has_path(s, p) ==> #[trigger] s_url_at(s.push(e), p) == s_url_at(s, p)
                && s_lastmodified_at(s.push(e), p) == s_lastmodified_at(s, p),
        s_url_at(s.push(e), e.name) == e.url,
        s_lastmodified_at(s.push(e), e.name) == e.lastmodified,
{
    let t = s.push(e);
    lemma_s_uniq_push(s, e);
    assert forall|p: Seq<char>|
        s_has_path(s, p) implies #[trigger] s_url_at(t, p) == s_url_at(s, p)
        && s_lastmodified_at(t, p) == s_lastmodified_at(s, p) by {
        let i = s_idx_of(s, p);
        assert(t[i] == s[i]);
        assert(s_has_path(t, p));
        let j = s_idx_of(t, p);
        if j == s.len() {
            assert(t[j] == e);
        } else {
            assert(t[j] == s[j]);
        }
    }
    assert(s_has_path(t, e.name)) by {
        assert(t[s.len() as int] == e);
    }
    let j = s_idx_of(t, e.name);
    if j < s.len() {
        assert(t[j] == s[j]);
        assert(s_has_path(s, e.name));
    }
}

/// Some entry of `s` carries the backend-local id `id`.
pub open spec fn has_id(s: Seq<BookmarkModel>, id: int) -> bool {
    exists|i: int| 0 <= i < s.len() && s[i].id == id
}

/// Collapsing duplicates leaves a listing with pairwise distinct paths
/// unchanged.
pub proof fn lemma_dedup_uniq(s: Seq<BookmarkModel>)
    requires
        uniq_paths(s),
    ensures
        dedup_model(s) == s,
    decreases s.len(),
{
    if s.len() == 0 {
        assert(dedup_model(s) =~= s);
    } else {
        let rest = s.drop_first();
        assert(uniq_paths(rest)) by {
            assert forall|i: int, j: int|
                0 <= i < rest.len() && 0 <= j < rest.len() && rest[i].name == rest[j].name
                    implies i == j by {
                assert(rest[i] == s[i + 1] && rest[j] == s[j + 1]);
            }
        }
        assert(!has_path(rest, s[0].name)) by {
            if has_path(rest, s[0].name) {
                let j = idx_of(rest, s[0].name);
                assert(s[j + 1].name == s[0].name);
            }
        }
        lemma_dedup_uniq(rest);
        assert(dedup_model(s) =~= s);
    }
}

} // verus!
