//! The engine's data types: live bookmarks, snapshot entries, change sets,
//! and the error kinds the engine itself can produce.

use vstd::prelude::*;
use crate::model::{
    BookmarkModel, SBookmarkModel, DeletionModel, has_path, s_has_path, d_has_path, uniq_paths,
    d_uniq_paths, dedup_model, s_dedup_model,
};

verus! {

/// One live bookmark as a backend reports it. `id` is backend-local and is
/// only meaningful when addressing this bookmark on the backend it came from;
/// `name` is the `/`-separated logical path that identifies the bookmark
/// across sides.
pub struct Bookmark {
    pub id: usize,
    pub name: String,
    pub url: String,
    pub lastmodified: u64,
}

impl View for Bookmark {
    type V = BookmarkModel;

    open spec fn view(&self) -> BookmarkModel {
        BookmarkModel {
            id: self.id as int,
            name: self.name@,
            url: self.url@,
            lastmodified: self.lastmodified as int,
        }
    }
}

impl Bookmark {
    /// A field-for-field copy.
    pub fn duplicate(&self) -> (r: Bookmark)
        ensures
            r == *self,
    {
        Bookmark {
            id: self.id,
            name: self.name.clone(),
            url: self.url.clone(),
            lastmodified: self.lastmodified,
        }
    }
}

/// One snapshot entry: a bookmark with the backend-local id erased.
pub struct SBookmark {
    pub name: String,
    pub url: String,
    pub lastmodified: u64,
}

impl View for SBookmark {
    type V = SBookmarkModel;

    open spec fn view(&self) -> SBookmarkModel {
        SBookmarkModel {
            name: self.name@,
            url: self.url@,
            lastmodified: self.lastmodified as int,
        }
    }
}

impl SBookmark {
    /// A field-for-field copy.
    pub fn duplicate(&self) -> (r: SBookmark)
        ensures
            r == *self,
    {
        SBookmark { name: self.name.clone(), url: self.url.clone(), lastmodified: self.lastmodified }
    }
}

/// The state persisted after the previous successful run. `at` is advisory
/// and never read by the algorithm.
pub struct Snapshot {
    pub at: u64,
    pub bookmarks: Vec<SBookmark>,
}

/// One scheduled deletion: the path and the id the destination backend uses
/// for it.
pub struct Deletion {
    pub name: String,
    pub id: usize,
}

impl View for Deletion {
    type V = DeletionModel;

    open spec fn view(&self) -> DeletionModel {
        DeletionModel { name: self.name@, id: self.id as int }
    }
}

impl Deletion {
    /// A field-for-field copy.
    pub fn duplicate(&self) -> (r: Deletion)
        ensures
            r == *self,
    {
        Deletion { name: self.name.clone(), id: self.id }
    }
}

/// The model of a sequence of live bookmarks.
pub open spec fn abs_bms(s: Seq<Bookmark>) -> Seq<BookmarkModel> {
    s.map_values(|b: Bookmark| b@)
}

/// The model of a sequence of snapshot entries.
pub open spec fn abs_sbms(s: Seq<SBookmark>) -> Seq<SBookmarkModel> {
    s.map_values(|b: SBookmark| b@)
}

/// The model of a sequence of deletions.
pub open spec fn abs_dels(s: Seq<Deletion>) -> Seq<DeletionModel> {
    s.map_values(|d: Deletion| d@)
}

/// The change set scheduled for one side: bookmarks to create, bookmarks to
/// overwrite (carrying the destination-side id), and deletions (likewise).
pub struct Changes {
    pub new: Vec<Bookmark>,
    pub changed: Vec<Bookmark>,
    pub deleted: Vec<Deletion>,
}

impl Changes {
    /// Paths are pairwise distinct within each category.
    pub open spec fn wf(self) -> bool {
        &&& uniq_paths(abs_bms(self.new@))
        &&& uniq_paths(abs_bms(self.changed@))
        &&& d_uniq_paths(abs_dels(self.deleted@))
    }

    /// The three categories have pairwise disjoint path sets.
    pub open spec fn disjoint_categories(self) -> bool {
        &&& forall|p: Seq<char>|
            has_path(abs_bms(self.new@), p) ==> !has_path(abs_bms(self.changed@), p)
                && !d_has_path(abs_dels(self.deleted@), p)
        &&& forall|p: Seq<char>|
            has_path(abs_bms(self.changed@), p) ==> !d_has_path(abs_dels(self.deleted@), p)
    }

    /// Nothing is scheduled.
    pub open spec fn is_noop(self) -> bool {
        self.new@.len() == 0 && self.changed@.len() == 0 && self.deleted@.len() == 0
    }

    /// An empty change set.
    pub fn empty() -> (r: Changes)
        ensures
            r.is_noop(),
            r.wf(),
            r.disjoint_categories(),
    {
        Changes { new: Vec::new(), changed: Vec::new(), deleted: Vec::new() }
    }
}

/// What one diff run decided: the change set to apply to side A, the change
/// set to apply to side B, and the snapshot describing the expected state of
/// both sides afterwards.
pub struct Update {
    pub a: Changes,
    pub b: Changes,
    pub new_state: Vec<SBookmark>,
}

/// The error kinds the engine itself can produce. I/O, transport, parse and
/// subprocess failures belong to the surrounding process, not to the engine.
#[derive(Debug)]
pub enum Error {
    /// A required storage configuration field is absent; carries the field
    /// name.
    MissingConfig(String),
    /// A sync conflict under the `Error` policy; carries the conflicting
    /// path.
    Conflict(String),
    /// An internal invariant was violated, e.g. an id rebinding lookup found
    /// no bookmark on the destination side.
    InternalInconsistency,
}

/// `e` reports a conflict on path `p`.
pub open spec fn is_conflict(e: Error, p: Seq<char>) -> bool {
    match e {
        Error::Conflict(q) => q@ == p,
        _ => false,
    }
}


/// `e` reports a missing configuration field named `f`.
pub open spec fn is_missing_config(e: Error, f: Seq<char>) -> bool {
    match e {
        Error::MissingConfig(q) => q@ == f,
        _ => false,
    }
}

/// The index of the first bookmark in `v` carrying path `name`, if any.
pub fn find_bookmark(v: &Vec<Bookmark>, name: &String) -> (r: Option<usize>)
    ensures
        match r {
            Some(i) => i < v.len() && abs_bms(v@)[i as int].name == name@,
            None => !has_path(abs_bms(v@), name@),
        },
{
    let mut i: usize = 0;
    while i < v.len()
        invariant
            i <= v.len(),
            forall|j: int| 0 <= j < i ==> abs_bms(v@)[j].name != name@,
        decreases v.len() - i,
    {
        if v[i].name == *name {
            return Some(i);
        }
        i += 1;
    }
    None
}

/// The index of the first snapshot entry in `v` carrying path `name`, if any.
pub fn find_sbookmark(v: &Vec<SBookmark>, name: &String) -> (r: Option<usize>)
    ensures
        match r {
            Some(i) => i < v.len() && abs_sbms(v@)[i as int].name == name@,
            None => !s_has_path(abs_sbms(v@), name@),
        },
{
    let mut i: usize = 0;
    while i < v.len()
        invariant
            i <= v.len(),
            forall|j: int| 0 <= j < i ==> abs_sbms(v@)[j].name != name@,
        decreases v.len() - i,
    {
        if v[i].name == *name {
            return Some(i);
        }
        i += 1;
    }
    None
}

/// Whether some bookmark at an index at or after `from` carries path `name`.
pub fn path_in_suffix(v: &Vec<Bookmark>, name: &String, from: usize) -> (r: bool)
    requires
        from <= v.len(),
    ensures
        r == has_path(abs_bms(v@).skip(from as int), name@),
{
    let ghost suffix = abs_bms(v@).skip(from as int);
    let mut i: usize = from;
    while i < v.len()
        invariant
            from <= i <= v.len(),
            suffix == abs_bms(v@).skip(from as int),
            forall|j: int| 0 <= j < i - from ==> suffix[j].name != name@,
        decreases v.len() - i,
    {
        if v[i].name == *name {
            proof {
                assert(suffix[i - from].name == name@);
            }
            return true;
        }
        i += 1;
    }
    false
}

/// Whether some snapshot entry at an index at or after `from` carries path
/// `name`.
pub fn s_path_in_suffix(v: &Vec<SBookmark>, name: &String, from: usize) -> (r: bool)
    requires
        from <= v.len(),
    ensures
        r == s_has_path(abs_sbms(v@).skip(from as int), name@),
{
    let ghost suffix = abs_sbms(v@).skip(from as int);
    let mut i: usize = from;
    while i < v.len()
        invariant
            from <= i <= v.len(),
            suffix == abs_sbms(v@).skip(from as int),
            forall|j: int| 0 <= j < i - from ==> suffix[j].name != name@,
        decreases v.len() - i,
    {
        if v[i].name == *name {
            proof {
                assert(suffix[i - from].name == name@);
            }
            return true;
        }
        i += 1;
    }
    false
}

/// A copy of `v` in which only the last occurrence of each path is kept.
pub fn dedup_bookmarks(v: &Vec<Bookmark>) -> (r: Vec<Bookmark>)
    ensures
        abs_bms(r@) == dedup_model(abs_bms(v@)),
{
    let r = dedup_bookmarks_from(v, 0);
    proof {
        assert(abs_bms(v@).skip(0) =~= abs_bms(v@));
    }
    r
}

fn dedup_bookmarks_from(v: &Vec<Bookmark>, from: usize) -> (r: Vec<Bookmark>)
    requires
        from <= v.len(),
    ensures
        abs_bms(r@) == dedup_model(abs_bms(v@).skip(from as int)),
    decreases v.len() - from,
{
    let ghost suffix = abs_bms(v@).skip(from as int);
    if from == v.len() {
        let r: Vec<Bookmark> = Vec::new();
        proof {
            assert(abs_bms(r@) =~= dedup_model(suffix));
        }
        r
    } else {
        let mut rest = dedup_bookmarks_from(v, from + 1);
        proof {
            assert(suffix.drop_first() =~= abs_bms(v@).skip(from + 1));
            assert(suffix[0] == v@[from as int]@);
        }
        if path_in_suffix(v, &v[from].name, from + 1) {
            rest
        } else {
            rest.insert(0, v[from].duplicate());
            proof {
                assert(abs_bms(rest@) =~= dedup_model(suffix));
            }
            rest
        }
    }
}

/// A copy of `v` in which only the last occurrence of each path is kept.
pub fn dedup_sbookmarks(v: &Vec<SBookmark>) -> (r: Vec<SBookmark>)
    ensures
        abs_sbms(r@) == s_dedup_model(abs_sbms(v@)),
{
    let r = dedup_sbookmarks_from(v, 0);
    proof {
        assert(abs_sbms(v@).skip(0) =~= abs_sbms(v@));
    }
    r
}

fn dedup_sbookmarks_from(v: &Vec<SBookmark>, from: usize) -> (r: Vec<SBookmark>)
    requires
        from <= v.len(),
    ensures
        abs_sbms(r@) == s_dedup_model(abs_sbms(v@).skip(from as int)),
    decreases v.len() - from,
{
    let ghost suffix = abs_sbms(v@).skip(from as int);
    if from == v.len() {
        let r: Vec<SBookmark> = Vec::new();
        proof {
            assert(abs_sbms(r@) =~= s_dedup_model(suffix));
        }
        r
    } else {
        let mut rest = dedup_sbookmarks_from(v, from + 1);
        proof {
            assert(suffix.drop_first() =~= abs_sbms(v@).skip(from + 1));
            assert(suffix[0] == v@[from as int]@);
        }
        if s_path_in_suffix(v, &v[from].name, from + 1) {
            rest
        } else {
            rest.insert(0, v[from].duplicate());
            proof {
                assert(abs_sbms(rest@) =~= s_dedup_model(suffix));
            }
            rest
        }
    }
}

/// Mapping to models commutes with `push` for live bookmarks.
pub proof fn lemma_abs_bms_push(s: Seq<Bookmark>, b: Bookmark)
    ensures
        abs_bms(s.push(b)) == abs_bms(s).push(b@),
{
    assert(abs_bms(s.push(b)) =~= abs_bms(s).push(b@));
}

/// Mapping to models commutes with `push` for snapshot entries.
pub proof fn lemma_abs_sbms_push(s: Seq<SBookmark>, b: SBookmark)
    ensures
        abs_sbms(s.push(b)) == abs_sbms(s).push(b@),
{
    assert(abs_sbms(s.push(b)) =~= abs_sbms(s).push(b@));
}

/// Mapping to models commutes with `push` for deletions.
pub proof fn lemma_abs_dels_push(s: Seq<Deletion>, d: Deletion)
    ensures
        abs_dels(s.push(d)) == abs_dels(s).push(d@),
{
    assert(abs_dels(s.push(d)) =~= abs_dels(s).push(d@));
}

/// The index of the first deletion in `v` carrying path `name`, if any.
pub fn find_deletion(v: &Vec<Deletion>, name: &String) -> (r: Option<usize>)
    ensures
        match r {
            Some(i) => i < v.len() && abs_dels(v@)[i as int].name == name@,
            None => !d_has_path(abs_dels(v@), name@),
        },
{
    let mut i: usize = 0;
    while i < v.len()
        invariant
            i <= v.len(),
            forall|j: int| 0 <= j < i ==> abs_dels(v@)[j].name != name@,
        decreases v.len() - i,
    {
        if v[i].name == *name {
            return Some(i);
        }
        i += 1;
    }
    None
}

} // verus!
