//! The remote bookmark service's view of the world: bookmarks carry a
//! numeric id, a title, a url and folder ids; folders form a tree rooted at
//! id `-1`, held here as flat records (id, title, parent id). The engine
//! reconstructs a bookmark's logical path by walking the folder parents, and
//! turns an incoming change set into a plan of service operations, creating
//! missing folder chains at most once per run.

use vstd::prelude::*;
use crate::model::{BookmarkModel, dedup_model};
use crate::types::{Bookmark, Changes, Error, abs_bms, dedup_bookmarks};

verus! {

/// One folder of the remote service, flattened: the nesting of the wire
/// format is redundant with the parent ids.
pub struct NcFolder {
    pub id: i32,
    pub title: String,
    pub parent_folder: i32,
}

/// One bookmark of the remote service. Only the first folder id takes part
/// in path reconstruction.
pub struct NcBookmark {
    pub id: usize,
    pub title: String,
    pub url: String,
    pub lastmodified: u64,
    pub folders: Vec<i32>,
}

/// The engine's cache of one remote side: the folder records and the
/// bookmark records as last fetched.
pub struct NextcloudStorage {
    pub folders: Vec<NcFolder>,
    pub bookmarks: Vec<NcBookmark>,
}

/// A folder named by a plan: either one that already exists on the service,
/// or the one made by the creation at the given index of the same plan.
#[derive(Clone, Copy, PartialEq, Eq, Structural, Debug)]
pub enum FolderRef {
    Existing(i32),
    Created(usize),
}

/// One folder-creation step of a plan.
pub struct FolderCreate {
    pub parent: FolderRef,
    pub title: String,
}

/// One bookmark-creation step of a plan.
pub struct BookmarkCreate {
    pub title: String,
    pub url: String,
    pub folder: FolderRef,
}

/// One url-overwrite step of a plan.
pub struct BookmarkEdit {
    pub id: usize,
    pub url: String,
}

/// One row of the working folder table used while planning: a folder (by
/// reference), its parent and its title.
pub struct WorkFolder {
    pub id: FolderRef,
    pub parent: FolderRef,
    pub title: String,
}

/// What one `apply` against the remote service must perform, in order:
/// create the folders (each parent either existing or created earlier in the
/// same list), then add, edit and delete the bookmarks. `folder_table` is
/// the working table the plan was made against, for inspection.
pub struct ApplyPlan {
    pub folder_creates: Vec<FolderCreate>,
    pub adds: Vec<BookmarkCreate>,
    pub edits: Vec<BookmarkEdit>,
    pub deletes: Vec<usize>,
    pub folder_table: Vec<WorkFolder>,
}

/// The index of the first folder record carrying `id`, if any.
pub open spec fn find_folder(fs: Seq<NcFolder>, id: i32) -> Option<int>
    decreases fs.len(),
{
    if fs.len() == 0 {
        None
    } else if fs[0].id == id {
        Some(0int)
    } else {
        match find_folder(fs.drop_first(), id) {
            Some(i) => Some(i + 1),
            None => None,
        }
    }
}

/// `find_folder` returns the least index carrying the id, or `None`.
pub proof fn lemma_find_folder(fs: Seq<NcFolder>, id: i32)
    ensures
        match find_folder(fs, id) {
            Some(i) => 0 <= i < fs.len() && fs[i].id == id && forall|j: int|
                0 <= j < i ==> fs[j].id != id,
            None => forall|j: int| 0 <= j < fs.len() ==> fs[j].id != id,
        },
    decreases fs.len(),
{
    if fs.len() == 0 {
    } else if fs[0].id == id {
    } else {
        lemma_find_folder(fs.drop_first(), id);
        match find_folder(fs.drop_first(), id) {
            Some(i) => {
                assert forall|j: int| 0 <= j < i + 1 implies fs[j].id != id by {
                    if j > 0 {
                        assert(fs.drop_first()[j - 1] == fs[j]);
                    }
                }
            },
            None => {
                assert forall|j: int| 0 <= j < fs.len() implies fs[j].id != id by {
                    if j > 0 {
                        assert(fs.drop_first()[j - 1] == fs[j]);
                    }
                }
            },
        }
    }
}

/// The logical path of the folder `id`: the titles of its ancestors from
/// the root down to itself, joined by `/`. The walk spends one unit of
/// `fuel` per step, so a parent cycle or a dangling parent id yields `None`.
pub open spec fn folder_path_model(fs: Seq<NcFolder>, id: i32, fuel: nat) -> Option<Seq<char>>
    decreases fuel,
{
    if fuel == 0 {
        None
    } else {
        match find_folder(fs, id) {
            None => None,
            Some(i) => if fs[i].parent_folder == -1 {
                Some(fs[i].title@)
            } else {
                match folder_path_model(fs, fs[i].parent_folder, (fuel - 1) as nat) {
                    Some(pre) => Some(pre + seq!['/'] + fs[i].title@),
                    None => None,
                }
            },
        }
    }
}

/// The index of the first working row under parent `parent` with title
/// `title`, if any.
pub open spec fn wf_lookup(work: Seq<WorkFolder>, parent: FolderRef, title: Seq<char>) -> Option<
    int,
>
    decreases work.len(),
{
    if work.len() == 0 {
        None
    } else if work[0].parent == parent && work[0].title@ == title {
        Some(0int)
    } else {
        match wf_lookup(work.drop_first(), parent, title) {
            Some(i) => Some(i + 1),
            None => None,
        }
    }
}

/// `wf_lookup` returns the least matching index, or `None`.
pub proof fn lemma_wf_lookup(work: Seq<WorkFolder>, parent: FolderRef, title: Seq<char>)
    ensures
        match wf_lookup(work, parent, title) {
            Some(i) => 0 <= i < work.len() && work[i].parent == parent && work[i].title@ == title
                && forall|j: int|
                0 <= j < i ==> !(work[j].parent == parent && work[j].title@ == title),
            None => forall|j: int|
                0 <= j < work.len() ==> !(work[j].parent == parent && work[j].title@ == title),
        },
    decreases work.len(),
{
    if work.len() == 0 {
    } else if work[0].parent == parent && work[0].title@ == title {
    } else {
        lemma_wf_lookup(work.drop_first(), parent, title);
        match wf_lookup(work.drop_first(), parent, title) {
            Some(i) => {
                assert forall|j: int|
                    0 <= j < i + 1 implies !(work[j].parent == parent && work[j].title@
                    == title) by {
                    if j > 0 {
                        assert(work.drop_first()[j - 1] == work[j]);
                    }
                }
            },
            None => {
                assert forall|j: int|
                    0 <= j < work.len() implies !(work[j].parent == parent && work[j].title@
                    == title) by {
                    if j > 0 {
                        assert(work.drop_first()[j - 1] == work[j]);
                    }
                }
            },
        }
    }
}

/// Follow the titles `parts[from..]` down the working table, starting at
/// folder `cur`; the result is the folder reached, or `None` where a title
/// has no row under the current folder.
pub open spec fn descend_from(
    work: Seq<WorkFolder>,
    cur: FolderRef,
    parts: Seq<Seq<char>>,
    from: int,
) -> Option<FolderRef>
    decreases parts.len() - from,
{
    if from < 0 || from >= parts.len() {
        Some(cur)
    } else {
        match wf_lookup(work, cur, parts[from]) {
            None => None,
            Some(i) => descend_from(work, work[i].id, parts, from + 1),
        }
    }
}

/// A folder reference is meaningful for a plan with `ncreates` creations.
pub open spec fn ref_ok(r: FolderRef, ncreates: int) -> bool {
    match r {
        FolderRef::Created(j) => j < ncreates,
        FolderRef::Existing(_) => true,
    }
}

/// Every creation's parent is an existing folder or an earlier creation, so
/// the list can be executed in order.
pub open spec fn creates_wf(creates: Seq<FolderCreate>) -> bool {
    forall|k: int| 0 <= k < creates.len() ==> ref_ok(#[trigger] creates[k].parent, k)
}

/// Every row of the working table refers only to existing folders or to the
/// first `ncreates` creations.
pub open spec fn work_wf(work: Seq<WorkFolder>, ncreates: int) -> bool {
    forall|k: int|
        0 <= k < work.len() ==> ref_ok(#[trigger] work[k].id, ncreates) && ref_ok(
            work[k].parent,
            ncreates,
        )
}

/// The root of the folder tree.
pub open spec fn root_ref() -> FolderRef {
    FolderRef::Existing(-1i32)
}

/// The least matching row determines `wf_lookup`.
pub proof fn lemma_wf_lookup_at(work: Seq<WorkFolder>, parent: FolderRef, title: Seq<char>, k: int)
    requires
        0 <= k < work.len(),
        work[k].parent == parent && work[k].title@ == title,
        forall|j: int| 0 <= j < k ==> !(work[j].parent == parent && work[j].title@ == title),
    ensures
        wf_lookup(work, parent, title) == Some(k),
{
    lemma_wf_lookup(work, parent, title);
    match wf_lookup(work, parent, title) {
        Some(m) => {
            if m < k {
            } else if m > k {
            }
        },
        None => {},
    }
}

/// A successful lookup is preserved when rows are appended at the end.
pub proof fn lemma_wf_lookup_mono(
    w0: Seq<WorkFolder>,
    w1: Seq<WorkFolder>,
    parent: FolderRef,
    title: Seq<char>,
    k: int,
)
    requires
        w0.len() <= w1.len(),
        w1.take(w0.len() as int) == w0,
        wf_lookup(w0, parent, title) == Some(k),
    ensures
        wf_lookup(w1, parent, title) == Some(k),
{
    lemma_wf_lookup(w0, parent, title);
    assert forall|j: int| 0 <= j < w0.len() implies w1[j] == w0[j] by {
        assert(w1.take(w0.len() as int)[j] == w1[j]);
    }
    lemma_wf_lookup_at(w1, parent, title, k);
}

/// A successful descent is preserved when rows are appended at the end.
pub proof fn lemma_descend_mono(
    w0: Seq<WorkFolder>,
    w1: Seq<WorkFolder>,
    cur: FolderRef,
    parts: Seq<Seq<char>>,
    from: int,
    x: FolderRef,
)
    requires
        w0.len() <= w1.len(),
        w1.take(w0.len() as int) == w0,
        descend_from(w0, cur, parts, from) == Some(x),
    ensures
        descend_from(w1, cur, parts, from) == Some(x),
    decreases parts.len() - from,
{
    if from < 0 || from >= parts.len() {
    } else {
        match wf_lookup(w0, cur, parts[from]) {
            None => {},
            Some(i) => {
                lemma_wf_lookup_mono(w0, w1, cur, parts[from], i);
                lemma_wf_lookup(w0, cur, parts[from]);
                assert(w1.take(w0.len() as int)[i] == w1[i]);
                assert(w1[i] == w0[i]);
                lemma_descend_mono(w0, w1, w0[i].id, parts, from + 1, x);
            },
        }
    }
}

/// Extending the followed prefix by one title performs one more lookup.
pub proof fn lemma_descend_take_snoc(
    work: Seq<WorkFolder>,
    cur: FolderRef,
    parts: Seq<Seq<char>>,
    i: int,
    from: int,
)
    requires
        0 <= from <= i < parts.len(),
    ensures
        descend_from(work, cur, parts.take(i + 1), from) == (match descend_from(
            work,
            cur,
            parts.take(i),
            from,
        ) {
            Some(x) => match wf_lookup(work, x, parts[i]) {
                Some(j) => descend_from(work, work[j].id, parts.take(i + 1), i + 1),
                None => None,
            },
            None => None,
        }),
    decreases i - from,
{
    assert(parts.take(i + 1)[from] == parts[from]);
    if from == i {
        assert(descend_from(work, cur, parts.take(i), from) == Some(cur));
    } else {
        match wf_lookup(work, cur, parts[from]) {
            None => {
                assert(parts.take(i)[from] == parts[from]);
            },
            Some(j) => {
                assert(parts.take(i)[from] == parts[from]);
                lemma_descend_take_snoc(work, work[j].id, parts, i, from + 1);
            },
        }
    }
}

/// A finished descent over the whole prefix is a `Some(cur)` tail.
pub proof fn lemma_descend_done(work: Seq<WorkFolder>, cur: FolderRef, parts: Seq<Seq<char>>, from: int)
    requires
        from >= parts.len() || from < 0,
    ensures
        descend_from(work, cur, parts, from) == Some(cur),
{
}

/// The creation at index `m` is reached by following some prefix of the
/// walked titles from the root: it lies on the walked chain.
pub open spec fn creation_reached(w: Seq<WorkFolder>, parts: Seq<Seq<char>>, m: int) -> bool {
    exists|j: int|
        0 <= j <= parts.len() && #[trigger] descend_from(w, root_ref(), parts.take(j), 0) == Some(
            FolderRef::Created(m as usize),
        )
}

/// The creation at index `m` is reached by following some prefix of the
/// folder chain of one of the change set's `new` paths.
pub open spec fn creation_on_chain(w: Seq<WorkFolder>, changes: Changes, m: int) -> bool {
    exists|k: int, j: int|
        0 <= k < changes.new@.len() && 0 <= j <= folder_parts(changes.new@[k].name@).len()
            && #[trigger] descend_from(
            w,
            root_ref(),
            folder_parts(changes.new@[k].name@).take(j),
            0,
        ) == Some(FolderRef::Created(m as usize))
}

/// What `ensure_folder` guarantees: the working table and the creation list
/// only grow, stay well formed, the returned folder is where the titles now
/// lead, and a descent that already succeeded is reused without any new
/// creation.
pub open spec fn ensure_post(
    w0: Seq<WorkFolder>,
    w1: Seq<WorkFolder>,
    c0: Seq<FolderCreate>,
    c1: Seq<FolderCreate>,
    parts: Seq<Seq<char>>,
    r: FolderRef,
) -> bool {
    &&& w1.len() >= w0.len() && w1.take(w0.len() as int) == w0
    &&& c1.len() >= c0.len() && c1.take(c0.len() as int) == c0
    &&& w1.len() - w0.len() == c1.len() - c0.len()
    &&& forall|m: int|
        c0.len() <= m < c1.len() ==> #[trigger] w1[w0.len() + (m - c0.len())] == (WorkFolder {
            id: FolderRef::Created(m as usize),
            parent: c1[m].parent,
            title: c1[m].title,
        })
    &&& forall|m: int|
        c0.len() <= m < c1.len() ==> #[trigger] wf_lookup(
            w1.take(w0.len() + (m - c0.len())),
            c1[m].parent,
            c1[m].title@,
        ) == None::<int>
    &&& forall|m: int| c0.len() <= m < c1.len() ==> #[trigger] creation_reached(w1, parts, m)
    &&& work_wf(w1, c1.len() as int)
    &&& creates_wf(c1)
    &&& ref_ok(r, c1.len() as int)
    &&& descend_from(w1, root_ref(), parts, 0) == Some(r)
    &&& (descend_from(w0, root_ref(), parts, 0) matches Some(x) ==> w1 == w0 && c1 == c0 && r
        == x)
}

/// Folder reuse: a second walk over the same titles within the same run
/// finds what the first walk created and creates nothing further.
pub proof fn lemma_folder_reuse(
    w0: Seq<WorkFolder>,
    w1: Seq<WorkFolder>,
    w2: Seq<WorkFolder>,
    c0: Seq<FolderCreate>,
    c1: Seq<FolderCreate>,
    c2: Seq<FolderCreate>,
    parts: Seq<Seq<char>>,
    r1: FolderRef,
    r2: FolderRef,
)
    requires
        ensure_post(w0, w1, c0, c1, parts, r1),
        ensure_post(w1, w2, c1, c2, parts, r2),
    ensures
        w2 == w1,
        c2 == c1,
        r2 == r1,
{
}

/// The index of the first working row under `parent` titled `title`.
fn find_work(work: &Vec<WorkFolder>, parent: FolderRef, title: &String) -> (r: Option<usize>)
    ensures
        match r {
            Some(i) => wf_lookup(work@, parent, title@) == Some(i as int),
            None => wf_lookup(work@, parent, title@) == None::<int>,
        },
{
    let mut i: usize = 0;
    while i < work.len()
        invariant
            i <= work.len(),
            forall|j: int|
                0 <= j < i ==> !(work@[j].parent == parent && work@[j].title@ == title@),
        decreases work.len() - i,
    {
        if work[i].parent == parent && work[i].title == *title {
            proof {
                lemma_wf_lookup_at(work@, parent, title@, i as int);
            }
            return Some(i);
        }
        i += 1;
    }
    proof {
        lemma_wf_lookup(work@, parent, title@);
        match wf_lookup(work@, parent, title@) {
            Some(m) => {
                assert(!(work@[m].parent == parent && work@[m].title@ == title@));
            },
            None => {},
        }
    }
    None
}

/// Walk the folder titles `parts[..nparts]` from the root down the working
/// table, creating every missing folder on the way: each creation is
/// recorded in `creates` and becomes a new working row, so later walks in
/// the same run reuse it.
#[verifier::loop_isolation(false)]
pub fn ensure_folder(
    work: &mut Vec<WorkFolder>,
    creates: &mut Vec<FolderCreate>,
    parts: &Vec<String>,
    nparts: usize,
) -> (r: FolderRef)
    requires
        nparts <= parts.len(),
        work_wf(old(work)@, old(creates)@.len() as int),
        creates_wf(old(creates)@),
    ensures
        ensure_post(
            old(work)@,
            final(work)@,
            old(creates)@,
            final(creates)@,
            strs(parts@).take(nparts as int),
            r,
        ),
{
    let ghost w0 = work@;
    let ghost c0 = creates@;
    let ghost pv = strs(parts@).take(nparts as int);
    let ghost old_descend = descend_from(w0, root_ref(), pv, 0);
    let mut cur = FolderRef::Existing(-1i32);
    let mut i: usize = 0;
    proof {
        assert(pv.take(0) =~= Seq::<Seq<char>>::empty());
        lemma_descend_done(work@, root_ref(), pv.take(0), 0);
    }
    while i < nparts
        invariant
            i <= nparts,
            work@.len() >= w0.len() && work@.take(w0.len() as int) == w0,
            creates@.len() >= c0.len() && creates@.take(c0.len() as int) == c0,
            work@.len() - w0.len() == creates@.len() - c0.len(),
            forall|m: int|
                c0.len() <= m < creates@.len() ==> #[trigger] work@[w0.len() + (m - c0.len())]
                    == (WorkFolder {
                    id: FolderRef::Created(m as usize),
                    parent: creates@[m].parent,
                    title: creates@[m].title,
                }),
            forall|m: int|
                c0.len() <= m < creates@.len() ==> #[trigger] wf_lookup(
                    work@.take(w0.len() + (m - c0.len())),
                    creates@[m].parent,
                    creates@[m].title@,
                ) == None::<int>,
            forall|m: int|
                c0.len() <= m < creates@.len() ==> #[trigger] creation_reached(work@, pv, m),
            work_wf(work@, creates@.len() as int),
            creates_wf(creates@),
            ref_ok(cur, creates@.len() as int),
            descend_from(work@, root_ref(), pv.take(i as int), 0) == Some(cur),
            old_descend matches Some(x) ==> work@ == w0 && creates@ == c0 && descend_from(
                w0,
                cur,
                pv,
                i as int,
            ) == Some(x),
        decreases nparts - i,
    {
        proof {
            assert(pv[i as int] == parts@[i as int]@);
            lemma_descend_take_snoc(work@, root_ref(), pv, i as int, 0);
        }
        match find_work(work, cur, &parts[i]) {
            Some(j) => {
                proof {
                    lemma_wf_lookup(work@, cur, pv[i as int]);
                }
                let next = work[j].id;
                proof {
                    match old_descend {
                        Some(x) => {
                            assert(descend_from(w0, cur, pv, i as int) == Some(x));
                            assert(wf_lookup(w0, cur, pv[i as int]) == Some(j as int));
                        },
                        None => {},
                    }
                    assert(descend_from(work@, root_ref(), pv.take(i + 1), 0) == descend_from(
                        work@,
                        work@[j as int].id,
                        pv.take(i + 1),
                        i + 1,
                    ));
                    lemma_descend_done(work@, work@[j as int].id, pv.take(i + 1), i + 1);
                }
                cur = next;
            },
            None => {
                proof {
                    match old_descend {
                        Some(x) => {
                            assert(descend_from(w0, cur, pv, i as int) == Some(x));
                            assert(wf_lookup(w0, cur, pv[i as int]) is Some);
                        },
                        None => {},
                    }
                }
                let idx: usize = creates.len();
                let ghost wpre = work@;
                let ghost cpre = creates@;
                creates.push(FolderCreate { parent: cur, title: parts[i].clone() });
                work.push(
                    WorkFolder { id: FolderRef::Created(idx), parent: cur, title: parts[i].clone() },
                );
                let next = FolderRef::Created(idx);
                proof {
                    assert(work@.take(wpre.len() as int) =~= wpre);
                    assert(creates@.take(cpre.len() as int) =~= cpre);
                    assert(work@.take(w0.len() as int) =~= w0);
                    assert(creates@.take(c0.len() as int) =~= c0);
                    assert forall|m: int|
                        c0.len() <= m < creates@.len() implies #[trigger] wf_lookup(
                        work@.take(w0.len() + (m - c0.len())),
                        creates@[m].parent,
                        creates@[m].title@,
                    ) == None::<int> by {
                        if m < cpre.len() {
                            assert(creates@[m] == cpre[m]);
                            assert(work@.take(w0.len() + (m - c0.len())) =~= wpre.take(
                                w0.len() + (m - c0.len()),
                            ));
                        } else {
                            assert(m == cpre.len());
                            assert(w0.len() + (m - c0.len()) == wpre.len());
                            assert(creates@[m].parent == cur);
                            assert(creates@[m].title@ == pv[i as int]);
                            assert(wf_lookup(wpre, cur, pv[i as int]) == None::<int>);
                        }
                    }
                    assert forall|m: int|
                        c0.len() <= m < creates@.len() implies #[trigger] work@[w0.len() + (m
                        - c0.len())] == (WorkFolder {
                        id: FolderRef::Created(m as usize),
                        parent: creates@[m].parent,
                        title: creates@[m].title,
                    }) by {
                        if m < cpre.len() {
                            assert(work@[w0.len() + (m - c0.len())] == wpre[w0.len() + (m
                                - c0.len())]);
                            assert(creates@[m] == cpre[m]);
                        }
                    }
                    assert(creates_wf(creates@)) by {
                        assert forall|k: int|
                            0 <= k < creates@.len() implies ref_ok(
                            #[trigger] creates@[k].parent,
                            k,
                        ) by {
                            if k < cpre.len() {
                                assert(creates@[k] == cpre[k]);
                            }
                        }
                    }
                    assert(work_wf(work@, creates@.len() as int)) by {
                        assert forall|k: int|
                            0 <= k < work@.len() implies ref_ok(
                            #[trigger] work@[k].id,
                            creates@.len() as int,
                        ) && ref_ok(work@[k].parent, creates@.len() as int) by {
                            if k < wpre.len() {
                                assert(work@[k] == wpre[k]);
                            }
                        }
                    }
                    lemma_descend_mono(wpre, work@, root_ref(), pv.take(i as int), 0, cur);
                    lemma_descend_take_snoc(work@, root_ref(), pv, i as int, 0);
                    let widx = work@.len() - 1;
                    assert(work@[widx].parent == cur && work@[widx].title@ == pv[i as int]);
                    assert(wf_lookup(work@, cur, pv[i as int]) is Some) by {
                        lemma_wf_lookup(work@, cur, pv[i as int]);
                        match wf_lookup(work@, cur, pv[i as int]) {
                            Some(_) => {},
                            None => {
                                assert(!(work@[widx].parent == cur && work@[widx].title@
                                    == pv[i as int]));
                            },
                        }
                    }
                    let j = wf_lookup(work@, cur, pv[i as int]);
                    lemma_wf_lookup(work@, cur, pv[i as int]);
                    let jj = j->Some_0;
                    assert(work@[jj].parent == cur && work@[jj].title@ == pv[i as int]);
                    if jj < wpre.len() {
                        assert(work@[jj] == wpre[jj]);
                        assert(wf_lookup(wpre, cur, pv[i as int]) is Some) by {
                            lemma_wf_lookup(wpre, cur, pv[i as int]);
                            match wf_lookup(wpre, cur, pv[i as int]) {
                                Some(_) => {},
                                None => {
                                    assert(!(wpre[jj].parent == cur && wpre[jj].title@
                                        == pv[i as int]));
                                },
                            }
                        }
                        assert(false);
                    }
                    assert(jj == widx);
                    assert(descend_from(work@, root_ref(), pv.take(i + 1), 0) == descend_from(
                        work@,
                        work@[widx].id,
                        pv.take(i + 1),
                        i + 1,
                    ));
                    lemma_descend_done(work@, work@[widx].id, pv.take(i + 1), i + 1);
                    assert(work@[widx].id == FolderRef::Created(idx));
                    assert(descend_from(work@, root_ref(), pv.take(i + 1), 0) == Some(
                        FolderRef::Created(idx),
                    ));
                    assert forall|m: int|
                        c0.len() <= m < creates@.len() implies #[trigger] creation_reached(
                        work@,
                        pv,
                        m,
                    ) by {
                        if m < cpre.len() {
                            assert(creation_reached(wpre, pv, m));
                            let jm = choose|j2: int|
                                0 <= j2 <= pv.len() && #[trigger] descend_from(
                                    wpre,
                                    root_ref(),
                                    pv.take(j2),
                                    0,
                                ) == Some(FolderRef::Created(m as usize));
                            lemma_descend_mono(
                                wpre,
                                work@,
                                root_ref(),
                                pv.take(jm),
                                0,
                                FolderRef::Created(m as usize),
                            );
                        } else {
                            assert(m == cpre.len() && m as usize == idx);
                            assert(0 <= i + 1 <= pv.len());
                            assert(descend_from(work@, root_ref(), pv.take(i + 1), 0) == Some(
                                FolderRef::Created(m as usize),
                            ));
                        }
                    }
                }
                cur = next;
            },
        }
        i += 1;
    }
    proof {
        assert(pv.take(nparts as int) =~= pv);
        match old_descend {
            Some(_) => {
                lemma_descend_done(w0, cur, pv, nparts as int);
            },
            None => {},
        }
    }
    cur
}

/// The views of a sequence of strings.
pub open spec fn strs(s: Seq<String>) -> Seq<Seq<char>> {
    s.map_values(|x: String| x@)
}

/// The position of the first `/` of `s`, if any.
pub open spec fn first_slash(s: Seq<char>) -> Option<int>
    decreases s.len(),
{
    if s.len() == 0 {
        None
    } else if s[0] == '/' {
        Some(0int)
    } else {
        match first_slash(s.drop_first()) {
            Some(k) => Some(k + 1),
            None => None,
        }
    }
}

/// `first_slash` returns the least index holding a `/`, or `None`.
pub proof fn lemma_first_slash(s: Seq<char>)
    ensures
        match first_slash(s) {
            Some(k) => 0 <= k < s.len() && s[k] == '/' && forall|j: int| 0 <= j < k ==> s[j] != '/',
            None => forall|j: int| 0 <= j < s.len() ==> s[j] != '/',
        },
    decreases s.len(),
{
    if s.len() == 0 {
    } else if s[0] == '/' {
    } else {
        lemma_first_slash(s.drop_first());
        match first_slash(s.drop_first()) {
            Some(k) => {
                assert forall|j: int| 0 <= j < k + 1 implies s[j] != '/' by {
                    if j > 0 {
                        assert(s.drop_first()[j - 1] == s[j]);
                    }
                }
            },
            None => {
                assert forall|j: int| 0 <= j < s.len() implies s[j] != '/' by {
                    if j > 0 {
                        assert(s.drop_first()[j - 1] == s[j]);
                    }
                }
            },
        }
    }
}

/// A least slash index determines `first_slash`.
pub proof fn lemma_first_slash_at(s: Seq<char>, k: int)
    requires
        0 <= k < s.len(),
        s[k] == '/',
        forall|j: int| 0 <= j < k ==> s[j] != '/',
    ensures
        first_slash(s) == Some(k),
{
    lemma_first_slash(s);
    match first_slash(s) {
        Some(m) => {
            if m < k {
                assert(s[m] != '/');
            }
            if m > k {
                assert(s[k] != '/');
            }
        },
        None => {
            assert(s[k] != '/');
        },
    }
}

/// A text without any slash determines `first_slash`.
pub proof fn lemma_first_slash_none(s: Seq<char>)
    requires
        forall|j: int| 0 <= j < s.len() ==> s[j] != '/',
    ensures
        first_slash(s) == None::<int>,
{
    lemma_first_slash(s);
    match first_slash(s) {
        Some(m) => {
            assert(s[m] != '/');
        },
        None => {},
    }
}

/// The `/`-separated segments of a path; an empty path is one empty
/// segment, and consecutive slashes yield empty segments.
pub open spec fn split_slash(s: Seq<char>) -> Seq<Seq<char>>
    decreases s.len(),
{
    match first_slash(s) {
        Some(k) => if 0 <= k < s.len() {
            seq![s.take(k)] + split_slash(s.skip(k + 1))
        } else {
            seq![s]
        },
        None => seq![s],
    }
}

/// A path always has at least one segment.
pub proof fn lemma_split_slash_len(s: Seq<char>)
    ensures
        split_slash(s).len() >= 1,
    decreases s.len(),
{
    lemma_first_slash(s);
    match first_slash(s) {
        Some(k) => {
            lemma_split_slash_len(s.skip(k + 1));
        },
        None => {},
    }
}

/// The folder chain of a path: every segment but the last.
pub open spec fn folder_parts(name: Seq<char>) -> Seq<Seq<char>> {
    split_slash(name).drop_last()
}

/// The title of a path: its last segment.
pub open spec fn title_of(name: Seq<char>) -> Seq<char> {
    split_slash(name).last()
}

/// Split a path into its `/`-separated segments.
#[verifier::loop_isolation(false)]
pub fn split_path(name: &String) -> (r: Vec<String>)
    ensures
        strs(r@) == split_slash(name@),
        r@.len() >= 1,
{
    let ghost full = name@;
    let s = name.as_str();
    let n: usize = s.unicode_len();
    let mut out: Vec<String> = Vec::new();
    let mut pos: usize = 0;
    let mut done = false;
    proof {
        assert(full.skip(0) =~= full);
    }
    while !done
        invariant
            pos <= n,
            n == full.len(),
            done ==> strs(out@) == split_slash(full),
            !done ==> split_slash(full) == strs(out@) + split_slash(full.skip(pos as int)),
            !done ==> out@.len() <= pos,
        decreases n - pos + (if done { 0int } else { 1int }),
    {
        let ghost rest = full.skip(pos as int);
        let mut k: usize = pos;
        while k < n && s.get_char(k) != '/'
            invariant
                pos <= k <= n,
                forall|j: int| pos <= j < k ==> full[j] != '/',
            decreases n - k,
        {
            k += 1;
        }
        let ghost seg = full.subrange(pos as int, k as int);
        let piece = s.substring_char(pos, k).to_owned();
        let ghost outv = out@;
        out.push(piece);
        proof {
            assert(strs(out@) =~= strs(outv).push(seg));
            if k < n {
                assert(full[k as int] == '/');
                assert(rest[k - pos] == '/');
                assert forall|j: int| 0 <= j < k - pos implies rest[j] != '/' by {
                    assert(rest[j] == full[pos + j]);
                }
                lemma_first_slash_at(rest, k - pos);
                assert(rest.take(k - pos) =~= seg);
                assert(rest.skip(k - pos + 1) =~= full.skip(k + 1));
                assert(split_slash(rest) == seq![seg] + split_slash(full.skip(k + 1)));
                assert(split_slash(full) =~= strs(out@) + split_slash(full.skip(k + 1)));
            } else {
                assert forall|j: int| 0 <= j < rest.len() implies rest[j] != '/' by {
                    assert(rest[j] == full[pos + j]);
                }
                lemma_first_slash_none(rest);
                assert(rest =~= seg);
                assert(split_slash(rest) == seq![seg]);
                assert(split_slash(full) =~= strs(out@));
            }
        }
        if k < n {
            pos = k + 1;
        } else {
            pos = n;
            done = true;
        }
    }
    proof {
        lemma_split_slash_len(full);
    }
    out
}

fn find_folder_at(folders: &Vec<NcFolder>, id: i32) -> (r: Option<usize>)
    ensures
        match r {
            Some(i) => find_folder(folders@, id) == Some(i as int),
            None => find_folder(folders@, id) == None::<int>,
        },
{
    let mut i: usize = 0;
    while i < folders.len()
        invariant
            i <= folders.len(),
            forall|j: int| 0 <= j < i ==> folders@[j].id != id,
        decreases folders.len() - i,
    {
        if folders[i].id == id {
            proof {
                lemma_find_folder(folders@, id);
                match find_folder(folders@, id) {
                    Some(m) => {
                        if m < i {
                            assert(folders@[m].id != id);
                        }
                        if m > i {
                            assert(folders@[i as int].id != id);
                        }
                    },
                    None => {
                        assert(folders@[i as int].id != id);
                    },
                }
            }
            return Some(i);
        }
        i += 1;
    }
    proof {
        lemma_find_folder(folders@, id);
        match find_folder(folders@, id) {
            Some(m) => {
                assert(folders@[m].id != id);
            },
            None => {},
        }
    }
    None
}

fn folder_path_fuel(folders: &Vec<NcFolder>, id: i32, fuel: usize) -> (r: Option<String>)
    ensures
        match r {
            Some(p) => folder_path_model(folders@, id, fuel as nat) == Some(p@),
            None => folder_path_model(folders@, id, fuel as nat) == None::<Seq<char>>,
        },
    decreases fuel,
{
    if fuel == 0 {
        None
    } else {
        match find_folder_at(folders, id) {
            None => None,
            Some(i) => {
                proof {
                    lemma_find_folder(folders@, id);
                }
                if folders[i].parent_folder == -1 {
                    Some(folders[i].title.clone())
                } else {
                    match folder_path_fuel(folders, folders[i].parent_folder, fuel - 1) {
                        Some(pre) => {
                            let joined = pre.concat("/").concat(folders[i].title.as_str());
                            proof {
                                reveal_strlit("/");
                                assert("/"@ =~= seq!['/']);
                            }
                            Some(joined)
                        },
                        None => None,
                    }
                }
            },
        }
    }
}

/// The logical path of the folder `id`, reconstructed by walking parent ids
/// up to the root; `None` for an unknown folder, a parent cycle or a
/// dangling parent id.
pub fn folder_path(folders: &Vec<NcFolder>, id: i32) -> (r: Option<String>)
    ensures
        match r {
            Some(p) => folder_path_model(folders@, id, folders@.len() as nat) == Some(p@),
            None => folder_path_model(folders@, id, folders@.len() as nat) == None::<Seq<char>>,
        },
{
    folder_path_fuel(folders, id, folders.len())
}

/// The logical path of one remote bookmark: the path of its first folder,
/// a `/`, and its title; or the bare title where it sits in no folder or
/// its folder cannot be resolved.
pub open spec fn nc_name(fs: Seq<NcFolder>, nb: NcBookmark) -> Seq<char> {
    if nb.folders@.len() == 0 {
        nb.title@
    } else {
        match folder_path_model(fs, nb.folders@[0], fs.len() as nat) {
            Some(p) => p + seq!['/'] + nb.title@,
            None => nb.title@,
        }
    }
}

/// The listing a remote side reports, before duplicate paths collapse.
pub open spec fn nc_list_model(fs: Seq<NcFolder>, bms: Seq<NcBookmark>) -> Seq<BookmarkModel> {
    bms.map_values(
        |nb: NcBookmark|
            BookmarkModel {
                id: nb.id as int,
                name: nc_name(fs, nb),
                url: nb.url@,
                lastmodified: nb.lastmodified as int,
            },
    )
}

/// What the plan of one remote `apply` promises: the folder creations can
/// be executed in order, each scheduled bookmark addition carries its
/// path's title and url and points at the folder its chain leads to in the
/// final working table, and the edits and deletions mirror the change set
/// entry for entry.
pub open spec fn apply_plan_post(fs: Seq<NcFolder>, changes: Changes, plan: ApplyPlan) -> bool {
    &&& creates_wf(plan.folder_creates@)
    &&& work_wf(plan.folder_table@, plan.folder_creates@.len() as int)
    &&& plan.folder_table@.len() == fs.len() + plan.folder_creates@.len()
    &&& forall|k: int|
        0 <= k < fs.len() ==> #[trigger] plan.folder_table@[k] == (WorkFolder {
            id: FolderRef::Existing(fs[k].id),
            parent: FolderRef::Existing(fs[k].parent_folder),
            title: fs[k].title,
        })
    &&& forall|m: int|
        0 <= m < plan.folder_creates@.len() ==> #[trigger] plan.folder_table@[fs.len() + m]
            == (WorkFolder {
            id: FolderRef::Created(m as usize),
            parent: plan.folder_creates@[m].parent,
            title: plan.folder_creates@[m].title,
        })
    &&& forall|m: int|
        0 <= m < plan.folder_creates@.len() ==> #[trigger] wf_lookup(
            plan.folder_table@.take(fs.len() + m),
            plan.folder_creates@[m].parent,
            plan.folder_creates@[m].title@,
        ) == None::<int>
    &&& forall|m: int|
        0 <= m < plan.folder_creates@.len() ==> #[trigger] creation_on_chain(
            plan.folder_table@,
            changes,
            m,
        )
    &&& plan.adds@.len() == changes.new@.len()
    &&& forall|k: int|
        0 <= k < plan.adds@.len() ==> {
            let add = #[trigger] plan.adds@[k];
            &&& add.url@ == changes.new@[k].url@
            &&& add.title@ == title_of(changes.new@[k].name@)
            &&& ref_ok(add.folder, plan.folder_creates@.len() as int)
            &&& descend_from(
                plan.folder_table@,
                root_ref(),
                folder_parts(changes.new@[k].name@),
                0,
            ) == Some(add.folder)
        }
    &&& plan.edits@.len() == changes.changed@.len()
    &&& forall|k: int|
        0 <= k < plan.edits@.len() ==> {
            let e = #[trigger] plan.edits@[k];
            e.id == changes.changed@[k].id && e.url@ == changes.changed@[k].url@
        }
    &&& plan.deletes@.len() == changes.deleted@.len()
    &&& forall|k: int|
        0 <= k < plan.deletes@.len() ==> #[trigger] plan.deletes@[k] == changes.deleted@[k].id
}

/// Each folder is created at most once per run: no two creations of a plan
/// name the same (parent, title), and no creation names a folder the
/// service already has. Together with the chain-membership clause of
/// [`apply_plan_post`] (every creation lies on the folder chain of some
/// `new` path) this pins the folder-create call count: one creation per
/// chain folder that is actually missing, none for one that exists or was
/// just created.
pub proof fn lemma_creations_distinct(fs: Seq<NcFolder>, changes: Changes, plan: ApplyPlan)
    requires
        apply_plan_post(fs, changes, plan),
    ensures
        forall|m1: int, m2: int|
            #![trigger plan.folder_creates@[m1], plan.folder_creates@[m2]]
            0 <= m1 < m2 < plan.folder_creates@.len() ==> !(plan.folder_creates@[m1].parent
                == plan.folder_creates@[m2].parent && plan.folder_creates@[m1].title@
                == plan.folder_creates@[m2].title@),
        forall|m: int, k: int|
            #![trigger plan.folder_creates@[m], fs[k]]
            0 <= m < plan.folder_creates@.len() && 0 <= k < fs.len() ==> !(
            plan.folder_creates@[m].parent == FolderRef::Existing(fs[k].parent_folder)
                && plan.folder_creates@[m].title@ == fs[k].title@),
{
    let table = plan.folder_table@;
    let creates = plan.folder_creates@;
    assert forall|m1: int, m2: int|
        #![trigger creates[m1], creates[m2]]
        0 <= m1 < m2 < creates.len() implies !(creates[m1].parent == creates[m2].parent
        && creates[m1].title@ == creates[m2].title@) by {
        let prefix = table.take(fs.len() + m2);
        lemma_wf_lookup(prefix, creates[m2].parent, creates[m2].title@);
        assert(prefix[fs.len() + m1] == table[fs.len() + m1]);
        assert(table[fs.len() + m1].parent == creates[m1].parent);
        assert(table[fs.len() + m1].title == creates[m1].title);
    }
    assert forall|m: int, k: int|
        #![trigger creates[m], fs[k]]
        0 <= m < creates.len() && 0 <= k < fs.len() implies !(creates[m].parent
        == FolderRef::Existing(fs[k].parent_folder) && creates[m].title@ == fs[k].title@) by {
        let prefix = table.take(fs.len() + m);
        lemma_wf_lookup(prefix, creates[m].parent, creates[m].title@);
        assert(prefix[k] == table[k]);
        assert(table[k].parent == FolderRef::Existing(fs[k].parent_folder));
        assert(table[k].title == fs[k].title);
    }
}

impl NextcloudStorage {
    /// The current remote listing: each fetched bookmark under its
    /// reconstructed logical path, duplicate paths collapsed so that the
    /// last occurrence wins.
    #[verifier::loop_isolation(false)]
    pub fn list(&self) -> (r: Result<Vec<Bookmark>, Error>)
        ensures
            match r {
                Ok(v) => abs_bms(v@) == dedup_model(
                    nc_list_model(self.folders@, self.bookmarks@),
                ),
                Err(_) => false,
            },
    {
        let ghost lm = nc_list_model(self.folders@, self.bookmarks@);
        let mut out: Vec<Bookmark> = Vec::new();
        let mut i: usize = 0;
        while i < self.bookmarks.len()
            invariant
                i <= self.bookmarks.len(),
                out@.len() == i,
                forall|k: int| 0 <= k < i ==> #[trigger] abs_bms(out@)[k] == lm[k],
            decreases self.bookmarks.len() - i,
        {
            let nb = &self.bookmarks[i];
            let mut name = nb.title.clone();
            if nb.folders.len() > 0 {
                match folder_path(&self.folders, nb.folders[0]) {
                    Some(p) => {
                        name = p.concat("/").concat(nb.title.as_str());
                        proof {
                            reveal_strlit("/");
                            assert("/"@ =~= seq!['/']);
                        }
                    },
                    None => {},
                }
            }
            let ghost outv = out@;
            let entry = Bookmark {
                id: nb.id,
                name,
                url: nb.url.clone(),
                lastmodified: nb.lastmodified,
            };
            let ghost eg = entry@;
            out.push(entry);
            proof {
                assert(self.bookmarks@[i as int] == *nb);
                assert(eg == lm[i as int]) by {
                    assert(eg.name == nc_name(self.folders@, *nb));
                }
                assert forall|k: int| 0 <= k < i + 1 implies #[trigger] abs_bms(out@)[k]
                    == lm[k] by {
                    if k < i {
                        assert(abs_bms(out@)[k] == abs_bms(outv)[k]);
                    }
                }
            }
            i += 1;
        }
        proof {
            assert(abs_bms(out@) =~= lm);
        }
        Ok(dedup_bookmarks(&out))
    }

    /// Turn an incoming change set into the plan of remote operations:
    /// one folder creation per missing folder of the `new` paths' chains
    /// (created chains are cached in the working table and reused within
    /// the run), one addition per `new` entry in its folder, one url edit
    /// per `changed` entry, and one deletion per `deleted` entry.
    #[verifier::loop_isolation(false)]
    pub fn apply(&self, changes: &Changes) -> (plan: ApplyPlan)
        ensures
            apply_plan_post(self.folders@, *changes, plan),
    {
        let mut work: Vec<WorkFolder> = Vec::new();
        let mut j: usize = 0;
        while j < self.folders.len()
            invariant
                j <= self.folders.len(),
                work@.len() == j,
                work_wf(work@, 0),
                forall|k: int|
                    0 <= k < j ==> #[trigger] work@[k] == (WorkFolder {
                        id: FolderRef::Existing(self.folders@[k].id),
                        parent: FolderRef::Existing(self.folders@[k].parent_folder),
                        title: self.folders@[k].title,
                    }),
            decreases self.folders.len() - j,
        {
            let ghost wv = work@;
            work.push(
                WorkFolder {
                    id: FolderRef::Existing(self.folders[j].id),
                    parent: FolderRef::Existing(self.folders[j].parent_folder),
                    title: self.folders[j].title.clone(),
                },
            );
            proof {
                assert forall|k: int|
                    0 <= k < work@.len() implies ref_ok(#[trigger] work@[k].id, 0) && ref_ok(
                    work@[k].parent,
                    0,
                ) by {
                    if k < wv.len() {
                        assert(work@[k] == wv[k]);
                    }
                }
                assert forall|k: int|
                    0 <= k < j + 1 implies #[trigger] work@[k] == (WorkFolder {
                    id: FolderRef::Existing(self.folders@[k].id),
                    parent: FolderRef::Existing(self.folders@[k].parent_folder),
                    title: self.folders@[k].title,
                }) by {
                    if k < wv.len() {
                        assert(work@[k] == wv[k]);
                    }
                }
            }
            j += 1;
        }
        let mut creates: Vec<FolderCreate> = Vec::new();
        let mut adds: Vec<BookmarkCreate> = Vec::new();
        let mut i: usize = 0;
        while i < changes.new.len()
            invariant
                i <= changes.new.len(),
                adds@.len() == i,
                creates_wf(creates@),
                work_wf(work@, creates@.len() as int),
                work@.len() == self.folders@.len() + creates@.len(),
                forall|k: int|
                    0 <= k < self.folders@.len() ==> #[trigger] work@[k] == (WorkFolder {
                        id: FolderRef::Existing(self.folders@[k].id),
                        parent: FolderRef::Existing(self.folders@[k].parent_folder),
                        title: self.folders@[k].title,
                    }),
                forall|m: int|
                    0 <= m < creates@.len() ==> #[trigger] work@[self.folders@.len() + m]
                        == (WorkFolder {
                        id: FolderRef::Created(m as usize),
                        parent: creates@[m].parent,
                        title: creates@[m].title,
                    }),
                forall|m: int|
                    0 <= m < creates@.len() ==> #[trigger] wf_lookup(
                        work@.take(self.folders@.len() + m),
                        creates@[m].parent,
                        creates@[m].title@,
                    ) == None::<int>,
                forall|m: int|
                    0 <= m < creates@.len() ==> #[trigger] creation_on_chain(work@, *changes, m),
                forall|k: int|
                    0 <= k < i ==> {
                        let add = #[trigger] adds@[k];
                        &&& add.url@ == changes.new@[k].url@
                        &&& add.title@ == title_of(changes.new@[k].name@)
                        &&& ref_ok(add.folder, creates@.len() as int)
                        &&& descend_from(
                            work@,
                            root_ref(),
                            folder_parts(changes.new@[k].name@),
                            0,
                        ) == Some(add.folder)
                    },
            decreases changes.new.len() - i,
        {
            let segs = split_path(&changes.new[i].name);
            let nparts: usize = segs.len() - 1;
            let ghost wpre = work@;
            let ghost cpre = creates@;
            let folder = ensure_folder(&mut work, &mut creates, &segs, nparts);
            let title = &segs[segs.len() - 1];
            let ghost addsv = adds@;
            adds.push(
                BookmarkCreate {
                    title: title.clone(),
                    url: changes.new[i].url.clone(),
                    folder,
                },
            );
            proof {
                assert forall|k: int|
                    0 <= k < self.folders@.len() implies #[trigger] work@[k] == (WorkFolder {
                    id: FolderRef::Existing(self.folders@[k].id),
                    parent: FolderRef::Existing(self.folders@[k].parent_folder),
                    title: self.folders@[k].title,
                }) by {
                    assert(work@.take(wpre.len() as int)[k] == work@[k]);
                    assert(wpre[k] == work@[k]);
                }
                assert forall|m: int|
                    0 <= m < creates@.len() implies #[trigger] wf_lookup(
                    work@.take(self.folders@.len() + m),
                    creates@[m].parent,
                    creates@[m].title@,
                ) == None::<int> by {
                    if m < cpre.len() {
                        assert(creates@.take(cpre.len() as int)[m] == creates@[m]);
                        assert(cpre[m] == creates@[m]);
                        assert(work@.take(self.folders@.len() + m) =~= wpre.take(
                            self.folders@.len() + m,
                        ));
                    } else {
                        assert(wpre.len() + (m - cpre.len()) == self.folders@.len() + m);
                        assert(wf_lookup(
                            work@.take(wpre.len() + (m - cpre.len())),
                            creates@[m].parent,
                            creates@[m].title@,
                        ) == None::<int>);
                    }
                }
                assert forall|m: int|
                    0 <= m < creates@.len() implies #[trigger] work@[self.folders@.len() + m]
                    == (WorkFolder {
                    id: FolderRef::Created(m as usize),
                    parent: creates@[m].parent,
                    title: creates@[m].title,
                }) by {
                    if m < cpre.len() {
                        assert(work@.take(wpre.len() as int)[self.folders@.len() + m] == work@[
                            self.folders@.len() + m]);
                        assert(wpre[self.folders@.len() + m] == work@[self.folders@.len() + m]);
                        assert(creates@.take(cpre.len() as int)[m] == creates@[m]);
                    } else {
                        assert(work@[wpre.len() + (m - cpre.len())] == (WorkFolder {
                            id: FolderRef::Created(m as usize),
                            parent: creates@[m].parent,
                            title: creates@[m].title,
                        }));
                    }
                }
                let name = changes.new@[i as int].name@;
                assert(strs(segs@) == split_slash(name));
                assert(strs(segs@).take(nparts as int) =~= folder_parts(name));
                let pv = strs(segs@).take(nparts as int);
                assert forall|m: int|
                    0 <= m < creates@.len() implies #[trigger] creation_on_chain(
                    work@,
                    *changes,
                    m,
                ) by {
                    if m < cpre.len() {
                        assert(creation_on_chain(wpre, *changes, m));
                        let (km, jm) = choose|k: int, j: int|
                            0 <= k < changes.new@.len() && 0 <= j <= folder_parts(
                                changes.new@[k].name@,
                            ).len() && #[trigger] descend_from(
                                wpre,
                                root_ref(),
                                folder_parts(changes.new@[k].name@).take(j),
                                0,
                            ) == Some(FolderRef::Created(m as usize));
                        lemma_descend_mono(
                            wpre,
                            work@,
                            root_ref(),
                            folder_parts(changes.new@[km].name@).take(jm),
                            0,
                            FolderRef::Created(m as usize),
                        );
                    } else {
                        assert(creation_reached(work@, pv, m));
                        let jm = choose|j: int|
                            0 <= j <= pv.len() && #[trigger] descend_from(
                                work@,
                                root_ref(),
                                pv.take(j),
                                0,
                            ) == Some(FolderRef::Created(m as usize));
                        assert(pv == folder_parts(name));
                        assert(descend_from(
                            work@,
                            root_ref(),
                            folder_parts(changes.new@[i as int].name@).take(jm),
                            0,
                        ) == Some(FolderRef::Created(m as usize)));
                    }
                }
                assert(strs(segs@)[segs@.len() - 1] == title_of(name));
                assert(adds@[i as int].title@ == title_of(name));
                assert forall|k: int|
                    0 <= k < i + 1 implies {
                    let add = #[trigger] adds@[k];
                    &&& add.url@ == changes.new@[k].url@
                    &&& add.title@ == title_of(changes.new@[k].name@)
                    &&& ref_ok(add.folder, creates@.len() as int)
                    &&& descend_from(work@, root_ref(), folder_parts(changes.new@[k].name@), 0)
                        == Some(add.folder)
                } by {
                    if k < i {
                        assert(adds@[k] == addsv[k]);
                        assert(ref_ok(addsv[k].folder, cpre.len() as int));
                        lemma_descend_mono(
                            wpre,
                            work@,
                            root_ref(),
                            folder_parts(changes.new@[k].name@),
                            0,
                            addsv[k].folder,
                        );
                    }
                }
            }
            i += 1;
        }
        let mut edits: Vec<BookmarkEdit> = Vec::new();
        let mut m: usize = 0;
        while m < changes.changed.len()
            invariant
                m <= changes.changed.len(),
                edits@.len() == m,
                forall|k: int|
                    0 <= k < m ==> {
                        let e = #[trigger] edits@[k];
                        e.id == changes.changed@[k].id && e.url@ == changes.changed@[k].url@
                    },
            decreases changes.changed.len() - m,
        {
            let ghost ev = edits@;
            edits.push(
                BookmarkEdit { id: changes.changed[m].id, url: changes.changed[m].url.clone() },
            );
            proof {
                assert forall|k: int|
                    0 <= k < m + 1 implies {
                    let e = #[trigger] edits@[k];
                    e.id == changes.changed@[k].id && e.url@ == changes.changed@[k].url@
                } by {
                    if k < m {
                        assert(edits@[k] == ev[k]);
                    }
                }
            }
            m += 1;
        }
        let mut deletes: Vec<usize> = Vec::new();
        let mut d: usize = 0;
        while d < changes.deleted.len()
            invariant
                d <= changes.deleted.len(),
                deletes@.len() == d,
                forall|k: int| 0 <= k < d ==> #[trigger] deletes@[k] == changes.deleted@[k].id,
            decreases changes.deleted.len() - d,
        {
            let ghost dv = deletes@;
            deletes.push(changes.deleted[d].id);
            proof {
                assert forall|k: int| 0 <= k < d + 1 implies #[trigger] deletes@[k]
                    == changes.deleted@[k].id by {
                    if k < d {
                        assert(deletes@[k] == dv[k]);
                    }
                }
            }
            d += 1;
        }
        ApplyPlan { folder_creates: creates, adds, edits, deletes, folder_table: work }
    }
}

} // verus!
