//! The pair runner: one synchronisation run over two sides. It lists both
//! sides, diffs them against the previous snapshot (or performs the initial
//! blind union), applies the resulting change sets to both sides in order,
//! and keeps the new snapshot as the ancestor for the next run. Reading and
//! persisting the snapshot file belong to the surrounding process.

use vstd::prelude::*;
use crate::ConflictResolution;
use crate::diff::{
    changes_initial, changes_with_snapshot, snapshot_diff_post, initial_diff_post,
    lemma_steady_state,
};
use crate::model::{
    SBookmarkModel, has_path, s_has_path, idx_of, s_idx_of, url_at, s_url_at, uniq_paths,
    s_uniq_paths, same_entries, dedup_model, lemma_dedup_uniq, lemma_idx_unique,
    lemma_s_idx_unique, lemma_s_dedup_model,
};
use crate::storage::{Storage, ApplyOutcome, PairConfig, apply_outcome_post};
use crate::textfile::{parse_content, render_model, renderable, lemma_parse_render};
use crate::types::{SBookmark, Snapshot, Update, Error, abs_sbms};

verus! {

/// One configured pair of sides, with the snapshot of their last
/// synchronised state, if any.
pub struct Pair {
    pub conflict_resolution: ConflictResolution,
    pub a: Storage,
    pub b: Storage,
    pub previous_state: Option<Snapshot>,
}

/// What one successful run hands back: what to perform against each side,
/// and the snapshot to persist.
pub struct RunResult {
    pub a: ApplyOutcome,
    pub b: ApplyOutcome,
    pub new_state: Vec<SBookmark>,
}

/// A copy of a snapshot listing, entry for entry.
fn duplicate_sbookmarks(v: &Vec<SBookmark>) -> (r: Vec<SBookmark>)
    ensures
        r@ == v@,
{
    let mut r: Vec<SBookmark> = Vec::new();
    let mut i: usize = 0;
    while i < v.len()
        invariant
            i <= v.len(),
            r@ == v@.take(i as int),
        decreases v.len() - i,
    {
        r.push(v[i].duplicate());
        proof {
            assert(r@ =~= v@.take(i + 1));
        }
        i += 1;
    }
    proof {
        assert(v@.take(v@.len() as int) =~= v@);
    }
    r
}

impl Pair {
    /// The snapshot, where present, has pairwise distinct paths.
    pub open spec fn wf(self) -> bool {
        match self.previous_state {
            Some(s) => s_uniq_paths(abs_sbms(s.bookmarks@)),
            None => true,
        }
    }

    /// What `changes` returns: the three-way diff against the previous
    /// snapshot, or the blind initial union where none exists.
    pub open spec fn changes_post(self, r: Result<Update, Error>) -> bool {
        match self.previous_state {
            Some(s) => snapshot_diff_post(
                self.conflict_resolution,
                self.a.list_model(),
                self.b.list_model(),
                abs_sbms(s.bookmarks@),
                r,
            ),
            None => initial_diff_post(
                self.conflict_resolution,
                self.a.list_model(),
                self.b.list_model(),
                r,
            ),
        }
    }

    /// Assemble a pair from its configuration, its two opened sides and the
    /// previous snapshot as read from disk. Duplicate paths in the snapshot
    /// collapse so that the last occurrence wins.
    pub fn new(
        cfg: &PairConfig,
        a: Storage,
        b: Storage,
        previous_state: Option<Snapshot>,
    ) -> (r: Pair)
        ensures
            r.wf(),
            r.conflict_resolution == cfg.conflict_resolution,
            r.a == a,
            r.b == b,
            match previous_state {
                None => r.previous_state is None,
                Some(s) => match r.previous_state {
                    Some(s2) => s2.at == s.at && abs_sbms(s2.bookmarks@) == crate::model::s_dedup_model(
                        abs_sbms(s.bookmarks@),
                    ),
                    None => false,
                },
            },
    {
        let previous = match previous_state {
            None => None,
            Some(s) => {
                let books = crate::types::dedup_sbookmarks(&s.bookmarks);
                proof {
                    lemma_s_dedup_model(abs_sbms(s.bookmarks@));
                }
                Some(Snapshot { at: s.at, bookmarks: books })
            },
        };
        Pair {
            conflict_resolution: cfg.conflict_resolution,
            a,
            b,
            previous_state: previous,
        }
    }

    /// The changes to be applied to each side, and the new snapshot, as the
    /// diff engine decides them from both current listings.
    pub fn changes(&self) -> (r: Result<Update, Error>)
        requires
            self.wf(),
        ensures
            self.changes_post(r),
    {
        let a = match self.a.list() {
            Ok(v) => v,
            Err(e) => {
                return Err(e);
            },
        };
        let b = match self.b.list() {
            Ok(v) => v,
            Err(e) => {
                return Err(e);
            },
        };
        match &self.previous_state {
            Some(snapshot) => changes_with_snapshot(self.conflict_resolution, &a, &b, snapshot),
            None => changes_initial(self.conflict_resolution, &a, &b),
        }
    }
}

/// What one `run` guarantees: on success some update satisfying the diff
/// contract was computed, each side was applied its half and handed the
/// matching outcome, and the new snapshot replaced the previous one; on
/// failure nothing changed and the error is the diff's.
pub open spec fn run_post(pre: Pair, post: Pair, r: Result<RunResult, Error>) -> bool {
    match r {
        Ok(rr) => {
            &&& post.conflict_resolution == pre.conflict_resolution
            &&& exists|u: Update|
                #[trigger] pre.changes_post(Ok(u)) && rr.new_state == u.new_state
                    && apply_outcome_post(pre.a, post.a, u.a, abs_sbms(u.new_state@), rr.a)
                    && apply_outcome_post(pre.b, post.b, u.b, abs_sbms(u.new_state@), rr.b)
            &&& match post.previous_state {
                Some(s) => s.at == 0 && s.bookmarks@ == rr.new_state@,
                None => false,
            }
            &&& post.wf()
        },
        Err(e) => pre.changes_post(Err(e)) && post == pre,
    }
}

impl Pair {
    /// One full synchronisation run: diff, apply to A, apply to B, keep the
    /// new snapshot. The returned outcomes and snapshot are what the
    /// surrounding process must persist, in that order; a failed diff
    /// leaves everything untouched.
    pub fn run(&mut self) -> (r: Result<RunResult, Error>)
        requires
            old(self).wf(),
        ensures
            run_post(*old(self), *final(self), r),
    {
        let update = match self.changes() {
            Ok(u) => u,
            Err(e) => {
                return Err(e);
            },
        };
        let ghost ug = update;
        let oa = match self.a.apply(&update.a, &update.new_state) {
            Ok(o) => o,
            Err(e) => {
                return Err(e);
            },
        };
        let ob = match self.b.apply(&update.b, &update.new_state) {
            Ok(o) => o,
            Err(e) => {
                return Err(e);
            },
        };
        let snap_books = duplicate_sbookmarks(&update.new_state);
        self.previous_state = Some(Snapshot { at: 0, bookmarks: snap_books });
        let rr = RunResult { a: oa, b: ob, new_state: update.new_state };
        proof {
            assert(old(self).changes_post(Ok(ug)));
            assert(self.wf()) by {
                match old(self).previous_state {
                    Some(_) => {},
                    None => {},
                }
                assert(abs_sbms(self.previous_state->Some_0.bookmarks@) == abs_sbms(
                    ug.new_state@,
                ));
            }
        }
        Ok(rr)
    }
}

/// A file whose text renders a snapshot lists exactly that snapshot's
/// bindings back.
proof fn lemma_file_matches_snapshot(lm: int, ns: Seq<SBookmarkModel>)
    requires
        renderable(ns),
        s_uniq_paths(ns),
    ensures
        same_entries(dedup_model(parse_content(lm, render_model(ns))), ns),
{
    let parsed = parse_content(lm, render_model(ns));
    lemma_parse_render(lm, ns);
    assert(uniq_paths(parsed)) by {
        assert forall|i: int, j: int|
            0 <= i < parsed.len() && 0 <= j < parsed.len() && parsed[i].name == parsed[j].name
                implies i == j by {
            assert(parsed[i].name == ns[i].name && parsed[j].name == ns[j].name);
        }
    }
    lemma_dedup_uniq(parsed);
    assert forall|p: Seq<char>| has_path(parsed, p) <==> s_has_path(ns, p) by {
        if has_path(parsed, p) {
            let i = idx_of(parsed, p);
            assert(ns[i].name == p);
        }
        if s_has_path(ns, p) {
            let i = s_idx_of(ns, p);
            assert(parsed[i].name == p);
        }
    }
    assert forall|p: Seq<char>| has_path(parsed, p) implies url_at(parsed, p) == s_url_at(
        ns,
        p,
    ) by {
        let i = idx_of(parsed, p);
        lemma_idx_unique(parsed, i);
        assert(ns[i].name == p);
        lemma_s_idx_unique(ns, i);
        assert(parsed[i].url == ns[i].url);
    }
}

/// Round trip, general form: after one successful run, a side that
/// faithfully applied its change set lists exactly the persisted snapshot's
/// bindings; whenever both sides do, the immediately following diff
/// succeeds and schedules nothing on either side.
pub proof fn lemma_round_trip_faithful(
    pre: Pair,
    post: Pair,
    rr: RunResult,
    r2: Result<Update, Error>,
)
    requires
        run_post(pre, post, Ok(rr)),
        same_entries(post.a.list_model(), abs_sbms(rr.new_state@)),
        same_entries(post.b.list_model(), abs_sbms(rr.new_state@)),
        post.changes_post(r2),
    ensures
        r2 is Ok,
        r2 matches Ok(u) ==> u.a.is_noop() && u.b.is_noop(),
{
    let ns = abs_sbms(rr.new_state@);
    let snap = post.previous_state->Some_0;
    assert(abs_sbms(snap.bookmarks@) == ns);
    lemma_steady_state(
        post.conflict_resolution,
        post.a.list_model(),
        post.b.list_model(),
        ns,
        r2,
    );
}

/// Round trip for two file sides, whose faithful `apply` (a whole-file
/// rewrite from the snapshot) the library itself verifies: an immediately
/// following diff finds nothing left to do, provided the snapshot survives
/// the file format (no line feed in any path or url, no blank in any url).
pub proof fn lemma_round_trip(pre: Pair, post: Pair, rr: RunResult, r2: Result<Update, Error>)
    requires
        run_post(pre, post, Ok(rr)),
        pre.a is File,
        pre.b is File,
        renderable(abs_sbms(rr.new_state@)),
        post.changes_post(r2),
    ensures
        r2 is Ok,
        r2 matches Ok(u) ==> u.a.is_noop() && u.b.is_noop(),
{
    let u1 = choose|u: Update|
        #[trigger] pre.changes_post(Ok(u)) && rr.new_state == u.new_state && apply_outcome_post(
            pre.a,
            post.a,
            u.a,
            abs_sbms(u.new_state@),
            rr.a,
        ) && apply_outcome_post(pre.b, post.b, u.b, abs_sbms(u.new_state@), rr.b);
    let ns = abs_sbms(rr.new_state@);
    let snap = post.previous_state->Some_0;
    assert(abs_sbms(snap.bookmarks@) == ns);
    assert(s_uniq_paths(ns));
    match (pre.a, post.a) {
        (Storage::File(_), Storage::File(f2)) => {
            match f2.content {
                Some(c2) => {
                    assert(c2@ == render_model(ns));
                    lemma_file_matches_snapshot(f2.lastmodified as int, ns);
                    assert(post.a.list_model() == dedup_model(
                        parse_content(f2.lastmodified as int, c2@),
                    ));
                    assert(same_entries(post.a.list_model(), ns));
                },
                None => {
                    assert(false);
                },
            }
        },
        _ => {
            assert(false);
        },
    }
    match (pre.b, post.b) {
        (Storage::File(_), Storage::File(f2)) => {
            match f2.content {
                Some(c2) => {
                    assert(c2@ == render_model(ns));
                    lemma_file_matches_snapshot(f2.lastmodified as int, ns);
                    assert(same_entries(post.b.list_model(), ns));
                },
                None => {
                    assert(false);
                },
            }
        },
        _ => {
            assert(false);
        },
    }
    lemma_round_trip_faithful(pre, post, rr, r2);
}

} // verus!
