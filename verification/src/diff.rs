//! The diff engine: snapshot-based three-way change detection, conflict
//! resolution by policy, and identity rebinding.

use vstd::prelude::*;
use crate::ConflictResolution;
use crate::model::{
    BookmarkModel, SBookmarkModel, DeletionModel, has_path, s_has_path, d_has_path, idx_of,
    d_idx_of, url_at, s_url_at, id_at, lastmodified_at, s_lastmodified_at, uniq_paths,
    same_entries, has_id, s_uniq_paths, d_uniq_paths, entry_of,
    d_entry_of, lemma_idx_unique, lemma_s_idx_unique, lemma_has_path_push, lemma_s_has_path_push,
    lemma_d_has_path_push, lemma_uniq_push, lemma_d_uniq_push, lemma_take_fresh,
    lemma_s_take_fresh, lemma_d_take_fresh, lemma_s_url_at_push,
};
use crate::types::{
    Bookmark, SBookmark, Deletion, Changes, Update, Snapshot, Error, abs_bms, abs_sbms, abs_dels,
    find_bookmark, find_sbookmark, find_deletion, is_conflict, lemma_abs_bms_push,
    lemma_abs_sbms_push, lemma_abs_dels_push,
};

verus! {

/// Path `p` is newly present on side `x` relative to snapshot `s`.
pub open spec fn delta_new(x: Seq<BookmarkModel>, s: Seq<SBookmarkModel>, p: Seq<char>) -> bool {
    has_path(x, p) && !s_has_path(s, p)
}

/// Path `p` is present on side `x` and in snapshot `s` with a different url.
/// The url is the sole field that defines mutation.
pub open spec fn delta_changed(x: Seq<BookmarkModel>, s: Seq<SBookmarkModel>, p: Seq<char>) -> bool {
    has_path(x, p) && s_has_path(s, p) && url_at(x, p) != s_url_at(s, p)
}

/// Path `p` is in snapshot `s` but no longer present on side `x`.
pub open spec fn delta_deleted(x: Seq<BookmarkModel>, s: Seq<SBookmarkModel>, p: Seq<char>) -> bool {
    s_has_path(s, p) && !has_path(x, p)
}

/// What the per-side diff against the snapshot returns: membership of each
/// category is exactly the corresponding delta, `new` and `changed` carry
/// the side's own entries, and `deleted` carries the placeholder id `0`.
pub open spec fn compare_post(
    x: Seq<BookmarkModel>,
    s: Seq<SBookmarkModel>,
    c: Changes,
) -> bool {
    &&& c.wf()
    &&& forall|p: Seq<char>|
        #![trigger has_path(abs_bms(c.new@), p)]
        #![trigger s_has_path(s, p)]
        has_path(abs_bms(c.new@), p) <==> delta_new(x, s, p)
    &&& forall|p: Seq<char>|
        #![trigger has_path(abs_bms(c.changed@), p)]
        #![trigger s_has_path(s, p)]
        has_path(abs_bms(c.changed@), p) <==> delta_changed(x, s, p)
    &&& forall|p: Seq<char>|
        #![trigger d_has_path(abs_dels(c.deleted@), p)]
        #![trigger s_has_path(s, p)]
        d_has_path(abs_dels(c.deleted@), p) <==> delta_deleted(x, s, p)
    &&& forall|k: int| 0 <= k < c.new@.len() ==> entry_of(x, #[trigger] abs_bms(c.new@)[k])
    &&& forall|k: int| 0 <= k < c.changed@.len() ==> entry_of(x, #[trigger] abs_bms(c.changed@)[k])
    &&& forall|k: int| 0 <= k < c.deleted@.len() ==> #[trigger] abs_dels(c.deleted@)[k].id == 0
}

/// Diff one side's current listing `x` against the previous snapshot.
///
/// `new` holds the entries of `x` whose path is not in the snapshot,
/// `changed` the entries whose path is in the snapshot with a different url,
/// and `deleted` the snapshot paths absent from `x`, with a placeholder id.
pub fn compare_to_snapshot(x: &Vec<Bookmark>, snapshot: &Vec<SBookmark>) -> (c: Changes)
    requires
        uniq_paths(abs_bms(x@)),
        s_uniq_paths(abs_sbms(snapshot@)),
    ensures
        compare_post(abs_bms(x@), abs_sbms(snapshot@), c),
{
    let ghost xa = abs_bms(x@);
    let ghost sa = abs_sbms(snapshot@);
    let mut new: Vec<Bookmark> = Vec::new();
    let mut changed: Vec<Bookmark> = Vec::new();
    let mut i: usize = 0;
    while i < x.len()
        invariant
            i <= x.len(),
            xa == abs_bms(x@),
            sa == abs_sbms(snapshot@),
            uniq_paths(xa),
            s_uniq_paths(sa),
            uniq_paths(abs_bms(new@)),
            uniq_paths(abs_bms(changed@)),
            forall|p: Seq<char>|
                #![trigger has_path(abs_bms(new@), p)]
                #![trigger s_has_path(sa, p)]
                has_path(abs_bms(new@), p) <==> (has_path(xa.take(i as int), p) && !s_has_path(
                    sa,
                    p,
                )),
            forall|p: Seq<char>|
                #![trigger has_path(abs_bms(changed@), p)]
                #![trigger s_has_path(sa, p)]
                has_path(abs_bms(changed@), p) <==> (has_path(xa.take(i as int), p) && s_has_path(
                    sa,
                    p,
                ) && url_at(xa, p) != s_url_at(sa, p)),
            forall|k: int| 0 <= k < new@.len() ==> entry_of(xa, #[trigger] abs_bms(new@)[k]),
            forall|k: int| 0 <= k < changed@.len() ==> entry_of(xa, #[trigger] abs_bms(changed@)[k]),
        decreases x.len() - i,
    {
        let ghost pre = xa.take(i as int);
        let ghost e = xa[i as int];
        proof {
            assert(e == x@[i as int]@);
            assert(xa.take(i + 1) =~= pre.push(e));
            lemma_take_fresh(xa, i as int);
            lemma_idx_unique(xa, i as int);
        }
        match find_sbookmark(snapshot, &x[i].name) {
            None => {
                let ghost before = new@;
                let dup = x[i].duplicate();
                let ghost dupg = dup;
                new.push(dup);
                proof {
                    assert(dupg@ == e);
                    assert(new@ == before.push(dupg));
                    lemma_abs_bms_push(before, dupg);
                    lemma_uniq_push(abs_bms(before), e);
                    assert forall|p: Seq<char>|
                        #![trigger has_path(abs_bms(new@), p)]
                        #![trigger s_has_path(sa, p)]
                        has_path(abs_bms(new@), p) <==> (has_path(xa.take(i + 1), p)
                            && !s_has_path(sa, p)) by {
                        lemma_has_path_push(abs_bms(before), e, p);
                        lemma_has_path_push(pre, e, p);
                    }
                    assert forall|p: Seq<char>|
                        #![trigger has_path(abs_bms(changed@), p)]
                        #![trigger s_has_path(sa, p)]
                        has_path(abs_bms(changed@), p) <==> (has_path(xa.take(i + 1), p)
                            && s_has_path(sa, p) && url_at(xa, p) != s_url_at(sa, p)) by {
                        lemma_has_path_push(pre, e, p);
                    }
                }
            },
            Some(j) => {
                proof {
                    assert(sa[j as int] == snapshot@[j as int]@);
                    assert(sa[j as int].name == e.name);
                    lemma_s_idx_unique(sa, j as int);
                    assert(s_url_at(sa, e.name) == sa[j as int].url);
                }
                if x[i].url == snapshot[j].url {
                    proof {
                        assert(url_at(xa, e.name) == e.url);
                        assert(url_at(xa, e.name) == s_url_at(sa, e.name));
                        assert forall|p: Seq<char>|
                            #![trigger has_path(abs_bms(changed@), p)]
                            #![trigger s_has_path(sa, p)]
                            has_path(abs_bms(changed@), p) <==> (has_path(xa.take(i + 1), p)
                                && s_has_path(sa, p) && url_at(xa, p) != s_url_at(sa, p)) by {
                            lemma_has_path_push(pre, e, p);
                        }
                        assert forall|p: Seq<char>|
                            #![trigger has_path(abs_bms(new@), p)]
                            #![trigger s_has_path(sa, p)]
                            has_path(abs_bms(new@), p) <==> (has_path(xa.take(i + 1), p)
                                && !s_has_path(sa, p)) by {
                            lemma_has_path_push(pre, e, p);
                        }
                    }
                } else {
                    let ghost before = changed@;
                    let dup = x[i].duplicate();
                    let ghost dupg = dup;
                    changed.push(dup);
                    proof {
                        assert(dupg@ == e);
                        assert(changed@ == before.push(dupg));
                        assert(url_at(xa, e.name) == e.url);
                        assert(url_at(xa, e.name) != s_url_at(sa, e.name));
                        lemma_abs_bms_push(before, dupg);
                        lemma_uniq_push(abs_bms(before), e);
                        assert forall|p: Seq<char>|
                            #![trigger has_path(abs_bms(changed@), p)]
                            #![trigger s_has_path(sa, p)]
                            has_path(abs_bms(changed@), p) <==> (has_path(xa.take(i + 1), p)
                                && s_has_path(sa, p) && url_at(xa, p) != s_url_at(sa, p)) by {
                            lemma_has_path_push(abs_bms(before), e, p);
                            lemma_has_path_push(pre, e, p);
                        }
                        assert forall|p: Seq<char>|
                            #![trigger has_path(abs_bms(new@), p)]
                            #![trigger s_has_path(sa, p)]
                            has_path(abs_bms(new@), p) <==> (has_path(xa.take(i + 1), p)
                                && !s_has_path(sa, p)) by {
                            lemma_has_path_push(pre, e, p);
                        }
                    }
                }
            },
        }
        i += 1;
    }
    proof {
        assert(xa.take(x@.len() as int) =~= xa);
    }
    let mut deleted: Vec<Deletion> = Vec::new();
    let mut j: usize = 0;
    while j < snapshot.len()
        invariant
            j <= snapshot.len(),
            xa == abs_bms(x@),
            sa == abs_sbms(snapshot@),
            uniq_paths(xa),
            s_uniq_paths(sa),
            d_uniq_paths(abs_dels(deleted@)),
            forall|p: Seq<char>|
                #![trigger d_has_path(abs_dels(deleted@), p)]
                #![trigger has_path(xa, p)]
                d_has_path(abs_dels(deleted@), p) <==> (s_has_path(sa.take(j as int), p)
                    && !has_path(xa, p)),
            forall|k: int| 0 <= k < deleted@.len() ==> #[trigger] abs_dels(deleted@)[k].id == 0,
        decreases snapshot.len() - j,
    {
        let ghost pre = sa.take(j as int);
        let ghost e = sa[j as int];
        proof {
            assert(e == snapshot@[j as int]@);
            assert(sa.take(j + 1) =~= pre.push(e));
            lemma_s_take_fresh(sa, j as int);
        }
        match find_bookmark(x, &snapshot[j].name) {
            None => {
                let ghost before = deleted@;
                let del = Deletion { name: snapshot[j].name.clone(), id: 0 };
                let ghost delg = del;
                deleted.push(del);
                proof {
                    let d = delg@;
                    assert(d.name == e.name && d.id == 0);
                    assert(deleted@ == before.push(delg));
                    lemma_abs_dels_push(before, delg);
                    lemma_d_uniq_push(abs_dels(before), d);
                    assert forall|p: Seq<char>|
                        #![trigger d_has_path(abs_dels(deleted@), p)]
                        #![trigger has_path(xa, p)]
                        d_has_path(abs_dels(deleted@), p) <==> (s_has_path(sa.take(j + 1), p)
                            && !has_path(xa, p)) by {
                        lemma_d_has_path_push(abs_dels(before), d, p);
                        lemma_s_has_path_push(pre, e, p);
                    }
                }
            },
            Some(_) => {
                proof {
                    assert forall|p: Seq<char>|
                        #![trigger d_has_path(abs_dels(deleted@), p)]
                        #![trigger has_path(xa, p)]
                        d_has_path(abs_dels(deleted@), p) <==> (s_has_path(sa.take(j + 1), p)
                            && !has_path(xa, p)) by {
                        lemma_s_has_path_push(pre, e, p);
                    }
                }
            },
        }
        j += 1;
    }
    proof {
        assert(sa.take(snapshot@.len() as int) =~= sa);
        assert forall|p: Seq<char>|
            has_path(abs_bms(new@), p) implies delta_new(xa, sa, p) by {
        }
    }
    Changes { new, changed, deleted }
}

/// `kept` is `orig` restricted to the paths absent from `other`, in order.
pub open spec fn filtered(
    kept: Seq<BookmarkModel>,
    orig: Seq<BookmarkModel>,
    other: Seq<BookmarkModel>,
) -> bool {
    &&& uniq_paths(kept)
    &&& forall|p: Seq<char>|
        #![trigger has_path(kept, p)]
        #![trigger has_path(other, p)]
        has_path(kept, p) <==> (has_path(orig, p) && !has_path(other, p))
    &&& forall|k: int| 0 <= k < kept.len() ==> entry_of(orig, #[trigger] kept[k])
}

/// The deletion counterpart of [`filtered`].
pub open spec fn d_filtered(
    kept: Seq<DeletionModel>,
    orig: Seq<DeletionModel>,
    other: Seq<DeletionModel>,
) -> bool {
    &&& d_uniq_paths(kept)
    &&& forall|p: Seq<char>|
        #![trigger d_has_path(kept, p)]
        #![trigger d_has_path(other, p)]
        d_has_path(kept, p) <==> (d_has_path(orig, p) && !d_has_path(other, p))
    &&& forall|k: int| 0 <= k < kept.len() ==> d_entry_of(orig, #[trigger] kept[k])
}

fn filter_not_in(src: &Vec<Bookmark>, other: &Vec<Bookmark>) -> (r: Vec<Bookmark>)
    requires
        uniq_paths(abs_bms(src@)),
    ensures
        filtered(abs_bms(r@), abs_bms(src@), abs_bms(other@)),
{
    let ghost srca = abs_bms(src@);
    let ghost oa = abs_bms(other@);
    let mut kept: Vec<Bookmark> = Vec::new();
    let mut i: usize = 0;
    while i < src.len()
        invariant
            i <= src.len(),
            srca == abs_bms(src@),
            oa == abs_bms(other@),
            uniq_paths(srca),
            uniq_paths(abs_bms(kept@)),
            forall|p: Seq<char>|
                #![trigger has_path(abs_bms(kept@), p)]
                #![trigger has_path(oa, p)]
                has_path(abs_bms(kept@), p) <==> (has_path(srca.take(i as int), p) && !has_path(
                    oa,
                    p,
                )),
            forall|k: int| 0 <= k < kept@.len() ==> entry_of(srca, #[trigger] abs_bms(kept@)[k]),
        decreases src.len() - i,
    {
        let ghost pre = srca.take(i as int);
        let ghost e = srca[i as int];
        proof {
            assert(e == src@[i as int]@);
            assert(srca.take(i + 1) =~= pre.push(e));
            lemma_take_fresh(srca, i as int);
        }
        match find_bookmark(other, &src[i].name) {
            Some(_) => {
                proof {
                    assert forall|p: Seq<char>|
                        #![trigger has_path(abs_bms(kept@), p)]
                        #![trigger has_path(oa, p)]
                        has_path(abs_bms(kept@), p) <==> (has_path(srca.take(i + 1), p)
                            && !has_path(oa, p)) by {
                        lemma_has_path_push(pre, e, p);
                    }
                }
            },
            None => {
                let ghost before = kept@;
                let dup = src[i].duplicate();
                let ghost dupg = dup;
                kept.push(dup);
                proof {
                    assert(dupg@ == e);
                    assert(kept@ == before.push(dupg));
                    lemma_abs_bms_push(before, dupg);
                    lemma_uniq_push(abs_bms(before), e);
                    assert forall|p: Seq<char>|
                        #![trigger has_path(abs_bms(kept@), p)]
                        #![trigger has_path(oa, p)]
                        has_path(abs_bms(kept@), p) <==> (has_path(srca.take(i + 1), p)
                            && !has_path(oa, p)) by {
                        lemma_has_path_push(abs_bms(before), e, p);
                        lemma_has_path_push(pre, e, p);
                    }
                }
            },
        }
        i += 1;
    }
    proof {
        assert(srca.take(src@.len() as int) =~= srca);
    }
    kept
}

fn d_filter_not_in(src: &Vec<Deletion>, other: &Vec<Deletion>) -> (r: Vec<Deletion>)
    requires
        d_uniq_paths(abs_dels(src@)),
    ensures
        d_filtered(abs_dels(r@), abs_dels(src@), abs_dels(other@)),
{
    let ghost srca = abs_dels(src@);
    let ghost oa = abs_dels(other@);
    let mut kept: Vec<Deletion> = Vec::new();
    let mut i: usize = 0;
    while i < src.len()
        invariant
            i <= src.len(),
            srca == abs_dels(src@),
            oa == abs_dels(other@),
            d_uniq_paths(srca),
            d_uniq_paths(abs_dels(kept@)),
            forall|p: Seq<char>|
                #![trigger d_has_path(abs_dels(kept@), p)]
                #![trigger d_has_path(oa, p)]
                d_has_path(abs_dels(kept@), p) <==> (d_has_path(srca.take(i as int), p)
                    && !d_has_path(oa, p)),
            forall|k: int| 0 <= k < kept@.len() ==> d_entry_of(srca, #[trigger] abs_dels(kept@)[k]),
        decreases src.len() - i,
    {
        let ghost pre = srca.take(i as int);
        let ghost e = srca[i as int];
        proof {
            assert(e == src@[i as int]@);
            assert(srca.take(i + 1) =~= pre.push(e));
            lemma_d_take_fresh(srca, i as int);
        }
        match find_deletion(other, &src[i].name) {
            Some(_) => {
                proof {
                    assert forall|p: Seq<char>|
                        #![trigger d_has_path(abs_dels(kept@), p)]
                        #![trigger d_has_path(oa, p)]
                        d_has_path(abs_dels(kept@), p) <==> (d_has_path(srca.take(i + 1), p)
                            && !d_has_path(oa, p)) by {
                        lemma_d_has_path_push(pre, e, p);
                    }
                }
            },
            None => {
                let ghost before = kept@;
                let dup = src[i].duplicate();
                let ghost dupg = dup;
                kept.push(dup);
                proof {
                    assert(dupg@ == e);
                    assert(kept@ == before.push(dupg));
                    lemma_abs_dels_push(before, dupg);
                    lemma_d_uniq_push(abs_dels(before), e);
                    assert forall|p: Seq<char>|
                        #![trigger d_has_path(abs_dels(kept@), p)]
                        #![trigger d_has_path(oa, p)]
                        d_has_path(abs_dels(kept@), p) <==> (d_has_path(srca.take(i + 1), p)
                            && !d_has_path(oa, p)) by {
                        lemma_d_has_path_push(abs_dels(before), e, p);
                        lemma_d_has_path_push(pre, e, p);
                    }
                }
            },
        }
        i += 1;
    }
    proof {
        assert(srca.take(src@.len() as int) =~= srca);
    }
    kept
}

/// Resolve same-category conflicts between the two sides' `new` or `changed`
/// lists: under `AWins` the conflicting paths are removed from `b`, under
/// `BWins` from `a`, and under `Error` any common path aborts the run.
pub fn handle_duplicates(
    cr: ConflictResolution,
    a: &mut Vec<Bookmark>,
    b: &mut Vec<Bookmark>,
) -> (r: Result<(), Error>)
    requires
        uniq_paths(abs_bms(old(a)@)),
        uniq_paths(abs_bms(old(b)@)),
    ensures
        uniq_paths(abs_bms(final(a)@)),
        uniq_paths(abs_bms(final(b)@)),
        match r {
            Ok(()) => {
                &&& (cr == ConflictResolution::Error ==> final(a)@ == old(a)@ && final(b)@ == old(
                    b,
                )@ && (forall|p: Seq<char>|
                    !(#[trigger] has_path(abs_bms(old(a)@), p) && has_path(abs_bms(old(b)@), p))))
                &&& (cr == ConflictResolution::AWins ==> final(a)@ == old(a)@ && filtered(
                    abs_bms(final(b)@),
                    abs_bms(old(b)@),
                    abs_bms(old(a)@),
                ))
                &&& (cr == ConflictResolution::BWins ==> final(b)@ == old(b)@ && filtered(
                    abs_bms(final(a)@),
                    abs_bms(old(a)@),
                    abs_bms(old(b)@),
                ))
            },
            Err(e) => {
                &&& cr == ConflictResolution::Error
                &&& final(a)@ == old(a)@ && final(b)@ == old(b)@
                &&& exists|p: Seq<char>|
                    is_conflict(e, p) && #[trigger] has_path(abs_bms(old(a)@), p) && has_path(
                        abs_bms(old(b)@),
                        p,
                    )
            },
        },
        r is Ok <==> (cr != ConflictResolution::Error || forall|p: Seq<char>|
            !(#[trigger] has_path(abs_bms(old(a)@), p) && has_path(abs_bms(old(b)@), p))),
{
    match cr {
        ConflictResolution::AWins => {
            let kept = filter_not_in(b, a);
            *b = kept;
            Ok(())
        },
        ConflictResolution::BWins => {
            let kept = filter_not_in(a, b);
            *a = kept;
            Ok(())
        },
        ConflictResolution::Error => {
            let ghost aa = abs_bms(a@);
            let ghost ba = abs_bms(b@);
            let mut i: usize = 0;
            while i < b.len()
                invariant
                    i <= b.len(),
                    a@ == old(a)@,
                    b@ == old(b)@,
                    aa == abs_bms(a@),
                    ba == abs_bms(b@),
                    uniq_paths(aa),
                    uniq_paths(ba),
                    cr == ConflictResolution::Error,
                    forall|k: int| 0 <= k < i ==> !has_path(aa, #[trigger] ba[k].name),
                decreases b.len() - i,
            {
                match find_bookmark(a, &b[i].name) {
                    Some(m) => {
                        let e = Error::Conflict(b[i].name.clone());
                        proof {
                            let p = ba[i as int].name;
                            assert(ba[i as int] == b@[i as int]@);
                            assert(abs_bms(a@)[m as int].name == p);
                            assert(has_path(aa, p));
                            assert(has_path(ba, p));
                            assert(is_conflict(e, p));
                        }
                        return Err(e);
                    },
                    None => {},
                }
                i += 1;
            }
            proof {
                assert forall|p: Seq<char>|
                    !(#[trigger] has_path(aa, p) && has_path(ba, p)) by {
                    if has_path(ba, p) {
                        let k = idx_of(ba, p);
                        assert(!has_path(aa, ba[k].name));
                    }
                }
            }
            Ok(())
        },
    }
}

/// The deletion counterpart of [`handle_duplicates`].
pub fn handle_duplicates_deleted(
    cr: ConflictResolution,
    a: &mut Vec<Deletion>,
    b: &mut Vec<Deletion>,
) -> (r: Result<(), Error>)
    requires
        d_uniq_paths(abs_dels(old(a)@)),
        d_uniq_paths(abs_dels(old(b)@)),
    ensures
        d_uniq_paths(abs_dels(final(a)@)),
        d_uniq_paths(abs_dels(final(b)@)),
        match r {
            Ok(()) => {
                &&& (cr == ConflictResolution::Error ==> final(a)@ == old(a)@ && final(b)@ == old(
                    b,
                )@ && (forall|p: Seq<char>|
                    !(#[trigger] d_has_path(abs_dels(old(a)@), p) && d_has_path(
                        abs_dels(old(b)@),
                        p,
                    ))))
                &&& (cr == ConflictResolution::AWins ==> final(a)@ == old(a)@ && d_filtered(
                    abs_dels(final(b)@),
                    abs_dels(old(b)@),
                    abs_dels(old(a)@),
                ))
                &&& (cr == ConflictResolution::BWins ==> final(b)@ == old(b)@ && d_filtered(
                    abs_dels(final(a)@),
                    abs_dels(old(a)@),
                    abs_dels(old(b)@),
                ))
            },
            Err(e) => {
                &&& cr == ConflictResolution::Error
                &&& final(a)@ == old(a)@ && final(b)@ == old(b)@
                &&& exists|p: Seq<char>|
                    is_conflict(e, p) && #[trigger] d_has_path(abs_dels(old(a)@), p) && d_has_path(
                        abs_dels(old(b)@),
                        p,
                    )
            },
        },
        r is Ok <==> (cr != ConflictResolution::Error || forall|p: Seq<char>|
            !(#[trigger] d_has_path(abs_dels(old(a)@), p) && d_has_path(abs_dels(old(b)@), p))),
{
    match cr {
        ConflictResolution::AWins => {
            let kept = d_filter_not_in(b, a);
            *b = kept;
            Ok(())
        },
        ConflictResolution::BWins => {
            let kept = d_filter_not_in(a, b);
            *a = kept;
            Ok(())
        },
        ConflictResolution::Error => {
            let ghost aa = abs_dels(a@);
            let ghost ba = abs_dels(b@);
            let mut i: usize = 0;
            while i < b.len()
                invariant
                    i <= b.len(),
                    a@ == old(a)@,
                    b@ == old(b)@,
                    aa == abs_dels(a@),
                    ba == abs_dels(b@),
                    d_uniq_paths(aa),
                    d_uniq_paths(ba),
                    cr == ConflictResolution::Error,
                    forall|k: int| 0 <= k < i ==> !d_has_path(aa, #[trigger] ba[k].name),
                decreases b.len() - i,
            {
                match find_deletion(a, &b[i].name) {
                    Some(m) => {
                        let e = Error::Conflict(b[i].name.clone());
                        proof {
                            let p = ba[i as int].name;
                            assert(ba[i as int] == b@[i as int]@);
                            assert(abs_dels(a@)[m as int].name == p);
                            assert(d_has_path(aa, p));
                            assert(d_has_path(ba, p));
                            assert(is_conflict(e, p));
                        }
                        return Err(e);
                    },
                    None => {},
                }
                i += 1;
            }
            proof {
                assert forall|p: Seq<char>|
                    !(#[trigger] d_has_path(aa, p) && d_has_path(ba, p)) by {
                    if d_has_path(ba, p) {
                        let k = d_idx_of(ba, p);
                        assert(!d_has_path(aa, ba[k].name));
                    }
                }
            }
            Ok(())
        },
    }
}

/// Rebind the ids carried by `changes.changed` and `changes.deleted` to the
/// ids the opposite side `other` uses for the same paths. A path with no
/// counterpart on `other` violates the engine's rebinding invariant and
/// yields `InternalInconsistency`, leaving `changes` untouched.
pub fn change_ids(changes: &mut Changes, other: &Vec<Bookmark>) -> (r: Result<(), Error>)
    requires
        uniq_paths(abs_bms(other@)),
    ensures
        final(changes).new == old(changes).new,
        match r {
            Ok(()) => {
                &&& final(changes).changed@.len() == old(changes).changed@.len()
                &&& forall|k: int|
                    0 <= k < old(changes).changed@.len() ==> {
                        let e = #[trigger] abs_bms(old(changes).changed@)[k];
                        has_path(abs_bms(other@), e.name) && abs_bms(final(changes).changed@)[k]
                            == (BookmarkModel {
                            id: id_at(abs_bms(other@), e.name),
                            name: e.name,
                            url: e.url,
                            lastmodified: e.lastmodified,
                        })
                    }
                &&& final(changes).deleted@.len() == old(changes).deleted@.len()
                &&& forall|k: int|
                    0 <= k < old(changes).deleted@.len() ==> {
                        let e = #[trigger] abs_dels(old(changes).deleted@)[k];
                        has_path(abs_bms(other@), e.name) && abs_dels(final(changes).deleted@)[k]
                            == (DeletionModel { name: e.name, id: id_at(abs_bms(other@), e.name) })
                    }
            },
            Err(e) => (e matches Error::InternalInconsistency) && *final(changes) == *old(changes),
        },
        r is Ok <==> ((forall|k: int|
            0 <= k < old(changes).changed@.len() ==> has_path(
                abs_bms(other@),
                #[trigger] abs_bms(old(changes).changed@)[k].name,
            )) && (forall|k: int|
            0 <= k < old(changes).deleted@.len() ==> has_path(
                abs_bms(other@),
                #[trigger] abs_dels(old(changes).deleted@)[k].name,
            ))),
{
    let ghost oa = abs_bms(other@);
    let ghost ca = abs_bms(changes.changed@);
    let ghost da = abs_dels(changes.deleted@);
    let mut new_changed: Vec<Bookmark> = Vec::new();
    let mut i: usize = 0;
    while i < changes.changed.len()
        invariant
            i <= changes.changed.len(),
            changes == old(changes),
            oa == abs_bms(other@),
            ca == abs_bms(changes.changed@),
            uniq_paths(oa),
            new_changed@.len() == i,
            forall|k: int|
                0 <= k < i ==> {
                    let e = #[trigger] ca[k];
                    has_path(oa, e.name) && abs_bms(new_changed@)[k] == (BookmarkModel {
                        id: id_at(oa, e.name),
                        name: e.name,
                        url: e.url,
                        lastmodified: e.lastmodified,
                    })
                },
        decreases changes.changed.len() - i,
    {
        proof {
            assert(ca[i as int] == changes.changed@[i as int]@);
        }
        match find_bookmark(other, &changes.changed[i].name) {
            None => {
                proof {
                    assert(!has_path(oa, ca[i as int].name));
                }
                return Err(Error::InternalInconsistency);
            },
            Some(j) => {
                proof {
                    assert(oa[j as int] == other@[j as int]@);
                    lemma_idx_unique(oa, j as int);
                    assert(id_at(oa, ca[i as int].name) == oa[j as int].id);
                }
                let ghost before = new_changed@;
                let nb = Bookmark {
                    id: other[j].id,
                    name: changes.changed[i].name.clone(),
                    url: changes.changed[i].url.clone(),
                    lastmodified: changes.changed[i].lastmodified,
                };
                let ghost nbg = nb;
                new_changed.push(nb);
                proof {
                    lemma_abs_bms_push(before, nbg);
                }
            },
        }
        i += 1;
    }
    let mut new_deleted: Vec<Deletion> = Vec::new();
    let mut m: usize = 0;
    while m < changes.deleted.len()
        invariant
            m <= changes.deleted.len(),
            changes == old(changes),
            oa == abs_bms(other@),
            ca == abs_bms(changes.changed@),
            da == abs_dels(changes.deleted@),
            uniq_paths(oa),
            new_changed@.len() == ca.len(),
            forall|k: int|
                0 <= k < ca.len() ==> {
                    let e = #[trigger] ca[k];
                    has_path(oa, e.name) && abs_bms(new_changed@)[k] == (BookmarkModel {
                        id: id_at(oa, e.name),
                        name: e.name,
                        url: e.url,
                        lastmodified: e.lastmodified,
                    })
                },
            new_deleted@.len() == m,
            forall|k: int|
                0 <= k < m ==> {
                    let e = #[trigger] da[k];
                    has_path(oa, e.name) && abs_dels(new_deleted@)[k] == (DeletionModel {
                        name: e.name,
                        id: id_at(oa, e.name),
                    })
                },
        decreases changes.deleted.len() - m,
    {
        proof {
            assert(da[m as int] == changes.deleted@[m as int]@);
        }
        match find_bookmark(other, &changes.deleted[m].name) {
            None => {
                proof {
                    assert(!has_path(oa, da[m as int].name));
                }
                return Err(Error::InternalInconsistency);
            },
            Some(j) => {
                proof {
                    assert(oa[j as int] == other@[j as int]@);
                    lemma_idx_unique(oa, j as int);
                    assert(id_at(oa, da[m as int].name) == oa[j as int].id);
                }
                let ghost before = new_deleted@;
                let nd = Deletion { name: changes.deleted[m].name.clone(), id: other[j].id };
                let ghost ndg = nd;
                new_deleted.push(nd);
                proof {
                    lemma_abs_dels_push(before, ndg);
                }
            },
        }
        m += 1;
    }
    changes.changed = new_changed;
    changes.deleted = new_deleted;
    Ok(())
}

/// Membership of path `p` in the surviving `new` delta of side `x`: the path
/// is newly present on `x`, and the policy did not discard it in favour of
/// the opposite side `y`.
pub open spec fn resolved_new(
    x_loses: bool,
    x: Seq<BookmarkModel>,
    y: Seq<BookmarkModel>,
    s: Seq<SBookmarkModel>,
    p: Seq<char>,
) -> bool {
    delta_new(x, s, p) && !(x_loses && delta_new(y, s, p))
}

/// The `changed` counterpart of [`resolved_new`].
pub open spec fn resolved_changed(
    x_loses: bool,
    x: Seq<BookmarkModel>,
    y: Seq<BookmarkModel>,
    s: Seq<SBookmarkModel>,
    p: Seq<char>,
) -> bool {
    delta_changed(x, s, p) && !(x_loses && delta_changed(y, s, p))
}

/// The `deleted` counterpart of [`resolved_new`].
pub open spec fn resolved_deleted(
    x_loses: bool,
    x: Seq<BookmarkModel>,
    y: Seq<BookmarkModel>,
    s: Seq<SBookmarkModel>,
    p: Seq<char>,
) -> bool {
    delta_deleted(x, s, p) && !(x_loses && delta_deleted(y, s, p))
}

/// The change set `c`, scheduled against side `y`, is side `x`'s delta after
/// conflict resolution and id rebinding: each category holds exactly the
/// surviving delta paths, `new` and `changed` carry `x`'s own url, and
/// `changed` and `deleted` carry `y`'s id for the path.
pub open spec fn side_changes_post(
    x_loses: bool,
    x: Seq<BookmarkModel>,
    y: Seq<BookmarkModel>,
    s: Seq<SBookmarkModel>,
    c: Changes,
) -> bool {
    &&& c.wf()
    &&& forall|p: Seq<char>|
        #![trigger has_path(abs_bms(c.new@), p)]
        #![trigger s_has_path(s, p)]
        has_path(abs_bms(c.new@), p) <==> resolved_new(x_loses, x, y, s, p)
    &&& forall|k: int| 0 <= k < c.new@.len() ==> entry_of(x, #[trigger] abs_bms(c.new@)[k])
    &&& forall|p: Seq<char>|
        #![trigger has_path(abs_bms(c.changed@), p)]
        #![trigger s_has_path(s, p)]
        has_path(abs_bms(c.changed@), p) <==> resolved_changed(x_loses, x, y, s, p)
    &&& forall|k: int|
        0 <= k < c.changed@.len() ==> {
            let e = #[trigger] abs_bms(c.changed@)[k];
            &&& has_path(x, e.name)
            &&& has_path(y, e.name)
            &&& e.url == url_at(x, e.name)
            &&& e.lastmodified == lastmodified_at(x, e.name)
            &&& e.id == id_at(y, e.name)
        }
    &&& forall|p: Seq<char>|
        #![trigger d_has_path(abs_dels(c.deleted@), p)]
        #![trigger s_has_path(s, p)]
        d_has_path(abs_dels(c.deleted@), p) <==> resolved_deleted(x_loses, x, y, s, p)
    &&& forall|k: int|
        0 <= k < c.deleted@.len() ==> {
            let e = #[trigger] abs_dels(c.deleted@)[k];
            has_path(y, e.name) && e.id == id_at(y, e.name)
        }
}

/// The next snapshot is side A's listing with the change set scheduled for A
/// laid over it: additions from its `new`, url overwrites from its `new` and
/// `changed`, and removals from its `deleted`.
pub open spec fn new_state_post(
    a: Seq<BookmarkModel>,
    b: Seq<BookmarkModel>,
    u: Update,
) -> bool {
    let ns = abs_sbms(u.new_state@);
    &&& s_uniq_paths(ns)
    &&& forall|p: Seq<char>|
        #![trigger s_has_path(ns, p)]
        #![trigger has_path(a, p)]
        s_has_path(ns, p) <==> ((has_path(a, p) || has_path(abs_bms(u.a.new@), p)) && !d_has_path(
            abs_dels(u.a.deleted@),
            p,
        ))
    &&& forall|p: Seq<char>|
        #[trigger] s_has_path(ns, p) ==> s_url_at(ns, p) == (if has_path(abs_bms(u.a.new@), p)
            || has_path(abs_bms(u.a.changed@), p) {
            url_at(b, p)
        } else {
            url_at(a, p)
        })
    &&& forall|p: Seq<char>|
        #[trigger] s_has_path(ns, p) ==> s_lastmodified_at(ns, p) == (if has_path(
            abs_bms(u.a.new@),
            p,
        ) || has_path(abs_bms(u.a.changed@), p) {
            lastmodified_at(b, p)
        } else {
            lastmodified_at(a, p)
        })
}

/// No path falls in the same delta category on both sides.
pub open spec fn no_category_overlap(
    a: Seq<BookmarkModel>,
    b: Seq<BookmarkModel>,
    s: Seq<SBookmarkModel>,
) -> bool {
    &&& forall|p: Seq<char>| !(#[trigger] delta_new(a, s, p) && delta_new(b, s, p))
    &&& forall|p: Seq<char>| !(#[trigger] delta_changed(a, s, p) && delta_changed(b, s, p))
    &&& forall|p: Seq<char>| !(#[trigger] delta_deleted(a, s, p) && delta_deleted(b, s, p))
}

/// Every surviving `changed` or `deleted` path of side `x` still has a
/// counterpart on the opposite side `y`, so its id can be rebound.
pub open spec fn rebind_ok(
    x_loses: bool,
    x: Seq<BookmarkModel>,
    y: Seq<BookmarkModel>,
    s: Seq<SBookmarkModel>,
) -> bool {
    &&& forall|p: Seq<char>|
        #[trigger] resolved_changed(x_loses, x, y, s, p) ==> has_path(y, p)
    &&& forall|p: Seq<char>|
        #[trigger] resolved_deleted(x_loses, x, y, s, p) ==> has_path(y, p)
}

/// The three-way diff succeeds exactly when the policy tolerates every
/// same-category overlap and every surviving `changed`/`deleted` path can be
/// rebound on its destination side.
pub open spec fn snapshot_diff_ok(
    cr: ConflictResolution,
    a: Seq<BookmarkModel>,
    b: Seq<BookmarkModel>,
    s: Seq<SBookmarkModel>,
) -> bool {
    &&& (cr == ConflictResolution::Error ==> no_category_overlap(a, b, s))
    &&& rebind_ok(cr == ConflictResolution::BWins, a, b, s)
    &&& rebind_ok(cr == ConflictResolution::AWins, b, a, s)
}

/// The full contract of the snapshot-based diff: on success, each side
/// receives the opposite side's resolved and rebound delta, and the new
/// snapshot is A's listing with A's incoming changes applied; on failure,
/// a conflict error names an overlapping path under the `Error` policy, and
/// an internal-inconsistency error marks a failed rebinding.
pub open spec fn snapshot_diff_post(
    cr: ConflictResolution,
    a: Seq<BookmarkModel>,
    b: Seq<BookmarkModel>,
    s: Seq<SBookmarkModel>,
    r: Result<Update, Error>,
) -> bool {
    &&& match r {
        Ok(u) => {
            &&& side_changes_post(cr == ConflictResolution::BWins, a, b, s, u.b)
            &&& side_changes_post(cr == ConflictResolution::AWins, b, a, s, u.a)
            &&& u.a.disjoint_categories() && u.b.disjoint_categories()
            &&& new_state_post(a, b, u)
        },
        Err(e) => {
            &&& match e {
                Error::Conflict(q) => cr == ConflictResolution::Error && ((delta_new(a, s, q@)
                    && delta_new(b, s, q@)) || (delta_changed(a, s, q@) && delta_changed(b, s, q@))
                    || (delta_deleted(a, s, q@) && delta_deleted(b, s, q@))),
                Error::InternalInconsistency => cr == ConflictResolution::Error
                    ==> no_category_overlap(a, b, s),
                _ => false,
            }
        },
    }
    &&& (r is Ok <==> snapshot_diff_ok(cr, a, b, s))
}

/// Two listings whose entries carry the same paths index for index agree on
/// path membership and on path distinctness.
proof fn lemma_same_names(xs: Seq<BookmarkModel>, ys: Seq<BookmarkModel>)
    requires
        xs.len() == ys.len(),
        forall|k: int| 0 <= k < xs.len() ==> #[trigger] xs[k].name == ys[k].name,
    ensures
        forall|p: Seq<char>|
            #![trigger has_path(xs, p)]
            #![trigger has_path(ys, p)]
            has_path(xs, p) <==> has_path(ys, p),
        uniq_paths(xs) <==> uniq_paths(ys),
{
    assert forall|p: Seq<char>|
        #![trigger has_path(xs, p)]
        #![trigger has_path(ys, p)]
        has_path(xs, p) <==> has_path(ys, p) by {
        if has_path(xs, p) {
            let i = idx_of(xs, p);
            assert(ys[i].name == p);
        }
        if has_path(ys, p) {
            let i = idx_of(ys, p);
            assert(xs[i].name == p);
        }
    }
    if uniq_paths(xs) {
        assert forall|i: int, j: int|
            0 <= i < ys.len() && 0 <= j < ys.len() && ys[i].name == ys[j].name implies i == j by {
            assert(xs[i].name == ys[i].name && xs[j].name == ys[j].name);
        }
    }
    if uniq_paths(ys) {
        assert forall|i: int, j: int|
            0 <= i < xs.len() && 0 <= j < xs.len() && xs[i].name == xs[j].name implies i == j by {
            assert(xs[i].name == ys[i].name && xs[j].name == ys[j].name);
        }
    }
}

/// The deletion counterpart of [`lemma_same_names`].
proof fn lemma_d_same_names(xs: Seq<DeletionModel>, ys: Seq<DeletionModel>)
    requires
        xs.len() == ys.len(),
        forall|k: int| 0 <= k < xs.len() ==> #[trigger] xs[k].name == ys[k].name,
    ensures
        forall|p: Seq<char>|
            #![trigger d_has_path(xs, p)]
            #![trigger d_has_path(ys, p)]
            d_has_path(xs, p) <==> d_has_path(ys, p),
        d_uniq_paths(xs) <==> d_uniq_paths(ys),
{
    assert forall|p: Seq<char>|
        #![trigger d_has_path(xs, p)]
        #![trigger d_has_path(ys, p)]
        d_has_path(xs, p) <==> d_has_path(ys, p) by {
        if d_has_path(xs, p) {
            let i = d_idx_of(xs, p);
            assert(ys[i].name == p);
        }
        if d_has_path(ys, p) {
            let i = d_idx_of(ys, p);
            assert(xs[i].name == p);
        }
    }
    if d_uniq_paths(xs) {
        assert forall|i: int, j: int|
            0 <= i < ys.len() && 0 <= j < ys.len() && ys[i].name == ys[j].name implies i == j by {
            assert(xs[i].name == ys[i].name && xs[j].name == ys[j].name);
        }
    }
    if d_uniq_paths(ys) {
        assert forall|i: int, j: int|
            0 <= i < xs.len() && 0 <= j < xs.len() && xs[i].name == xs[j].name implies i == j by {
            assert(xs[i].name == ys[i].name && xs[j].name == ys[j].name);
        }
    }
}

/// The snapshot-based three-way diff. Each side's listing is compared with
/// the previous snapshot, same-category conflicts are resolved by policy,
/// ids are rebound to the destination side, and the sides are swapped:
/// side A receives B's surviving delta and vice versa. The new snapshot is
/// A's listing with A's incoming change set applied.
#[verifier::loop_isolation(false)]
#[verifier::rlimit(60)]
pub fn changes_with_snapshot(
    cr: ConflictResolution,
    a: &Vec<Bookmark>,
    b: &Vec<Bookmark>,
    snapshot: &Snapshot,
) -> (r: Result<Update, Error>)
    requires
        uniq_paths(abs_bms(a@)),
        uniq_paths(abs_bms(b@)),
        s_uniq_paths(abs_sbms(snapshot.bookmarks@)),
    ensures
        snapshot_diff_post(cr, abs_bms(a@), abs_bms(b@), abs_sbms(snapshot.bookmarks@), r),
{
    let ghost aa = abs_bms(a@);
    let ghost ba = abs_bms(b@);
    let ghost sa = abs_sbms(snapshot.bookmarks@);
    let ghost a_loses = cr == ConflictResolution::BWins;
    let ghost b_loses = cr == ConflictResolution::AWins;
    let mut ca = compare_to_snapshot(a, &snapshot.bookmarks);
    let mut cb = compare_to_snapshot(b, &snapshot.bookmarks);
    let ghost ca0 = ca;
    let ghost cb0 = cb;
    match handle_duplicates(cr, &mut ca.new, &mut cb.new) {
        Ok(()) => {},
        Err(e) => {
            proof {
                let p = choose|p: Seq<char>|
                    is_conflict(e, p) && #[trigger] has_path(abs_bms(ca0.new@), p) && has_path(
                        abs_bms(cb0.new@),
                        p,
                    );
                assert(delta_new(aa, sa, p) && delta_new(ba, sa, p));
            }
            return Err(e);
        },
    }
    match handle_duplicates(cr, &mut ca.changed, &mut cb.changed) {
        Ok(()) => {},
        Err(e) => {
            proof {
                let p = choose|p: Seq<char>|
                    is_conflict(e, p) && #[trigger] has_path(abs_bms(ca0.changed@), p) && has_path(
                        abs_bms(cb0.changed@),
                        p,
                    );
                assert(delta_changed(aa, sa, p) && delta_changed(ba, sa, p));
            }
            return Err(e);
        },
    }
    match handle_duplicates_deleted(cr, &mut ca.deleted, &mut cb.deleted) {
        Ok(()) => {},
        Err(e) => {
            proof {
                let p = choose|p: Seq<char>|
                    is_conflict(e, p) && #[trigger] d_has_path(abs_dels(ca0.deleted@), p)
                        && d_has_path(abs_dels(cb0.deleted@), p);
                assert(delta_deleted(aa, sa, p) && delta_deleted(ba, sa, p));
            }
            return Err(e);
        },
    }
    proof {
        assert forall|p: Seq<char>|
            #![trigger has_path(abs_bms(ca.new@), p)]
            #![trigger s_has_path(sa, p)]
            has_path(abs_bms(ca.new@), p) <==> resolved_new(a_loses, aa, ba, sa, p) by {}
        assert forall|p: Seq<char>|
            #![trigger has_path(abs_bms(ca.changed@), p)]
            #![trigger s_has_path(sa, p)]
            has_path(abs_bms(ca.changed@), p) <==> resolved_changed(a_loses, aa, ba, sa, p) by {}
        assert forall|p: Seq<char>|
            #![trigger d_has_path(abs_dels(ca.deleted@), p)]
            #![trigger s_has_path(sa, p)]
            d_has_path(abs_dels(ca.deleted@), p) <==> resolved_deleted(a_loses, aa, ba, sa, p) by {}
        assert forall|p: Seq<char>|
            #![trigger has_path(abs_bms(cb.new@), p)]
            #![trigger s_has_path(sa, p)]
            has_path(abs_bms(cb.new@), p) <==> resolved_new(b_loses, ba, aa, sa, p) by {}
        assert forall|p: Seq<char>|
            #![trigger has_path(abs_bms(cb.changed@), p)]
            #![trigger s_has_path(sa, p)]
            has_path(abs_bms(cb.changed@), p) <==> resolved_changed(b_loses, ba, aa, sa, p) by {}
        assert forall|p: Seq<char>|
            #![trigger d_has_path(abs_dels(cb.deleted@), p)]
            #![trigger s_has_path(sa, p)]
            d_has_path(abs_dels(cb.deleted@), p) <==> resolved_deleted(b_loses, ba, aa, sa, p) by {}
        assert forall|k: int|
            0 <= k < ca.new@.len() implies entry_of(aa, #[trigger] abs_bms(ca.new@)[k]) by {
            if a_loses {
                let e = abs_bms(ca.new@)[k];
                let j = choose|j: int| 0 <= j < abs_bms(ca0.new@).len() && abs_bms(ca0.new@)[j] == e;
                assert(entry_of(aa, abs_bms(ca0.new@)[j]));
            }
        }
        assert forall|k: int|
            0 <= k < cb.new@.len() implies entry_of(ba, #[trigger] abs_bms(cb.new@)[k]) by {
            if b_loses {
                let e = abs_bms(cb.new@)[k];
                let j = choose|j: int| 0 <= j < abs_bms(cb0.new@).len() && abs_bms(cb0.new@)[j] == e;
                assert(entry_of(ba, abs_bms(cb0.new@)[j]));
            }
        }
        assert forall|k: int|
            0 <= k < ca.changed@.len() implies entry_of(aa, #[trigger] abs_bms(ca.changed@)[k]) by {
            if a_loses {
                let e = abs_bms(ca.changed@)[k];
                let j = choose|j: int|
                    0 <= j < abs_bms(ca0.changed@).len() && abs_bms(ca0.changed@)[j] == e;
                assert(entry_of(aa, abs_bms(ca0.changed@)[j]));
            }
        }
        assert forall|k: int|
            0 <= k < cb.changed@.len() implies entry_of(ba, #[trigger] abs_bms(cb.changed@)[k]) by {
            if b_loses {
                let e = abs_bms(cb.changed@)[k];
                let j = choose|j: int|
                    0 <= j < abs_bms(cb0.changed@).len() && abs_bms(cb0.changed@)[j] == e;
                assert(entry_of(ba, abs_bms(cb0.changed@)[j]));
            }
        }
    }
    let ghost ca1 = ca;
    let ghost cb1 = cb;
    match change_ids(&mut ca, b) {
        Ok(()) => {},
        Err(e) => {
            proof {
                assert(!(forall|k: int|
                    0 <= k < ca1.changed@.len() ==> has_path(
                        ba,
                        #[trigger] abs_bms(ca1.changed@)[k].name,
                    )) || !(forall|k: int|
                    0 <= k < ca1.deleted@.len() ==> has_path(
                        ba,
                        #[trigger] abs_dels(ca1.deleted@)[k].name,
                    )));
                assert(!rebind_ok(a_loses, aa, ba, sa)) by {
                    if !(forall|k: int|
                        0 <= k < ca1.changed@.len() ==> has_path(
                            ba,
                            #[trigger] abs_bms(ca1.changed@)[k].name,
                        )) {
                        let k = choose|k: int|
                            0 <= k < ca1.changed@.len() && !has_path(
                                ba,
                                #[trigger] abs_bms(ca1.changed@)[k].name,
                            );
                        let p = abs_bms(ca1.changed@)[k].name;
                        assert(has_path(abs_bms(ca1.changed@), p));
                        assert(resolved_changed(a_loses, aa, ba, sa, p));
                    } else {
                        let k = choose|k: int|
                            0 <= k < ca1.deleted@.len() && !has_path(
                                ba,
                                #[trigger] abs_dels(ca1.deleted@)[k].name,
                            );
                        let p = abs_dels(ca1.deleted@)[k].name;
                        assert(d_has_path(abs_dels(ca1.deleted@), p));
                        assert(resolved_deleted(a_loses, aa, ba, sa, p));
                    }
                }
            }
            return Err(e);
        },
    }
    match change_ids(&mut cb, a) {
        Ok(()) => {},
        Err(e) => {
            proof {
                assert(!rebind_ok(b_loses, ba, aa, sa)) by {
                    if !(forall|k: int|
                        0 <= k < cb1.changed@.len() ==> has_path(
                            aa,
                            #[trigger] abs_bms(cb1.changed@)[k].name,
                        )) {
                        let k = choose|k: int|
                            0 <= k < cb1.changed@.len() && !has_path(
                                aa,
                                #[trigger] abs_bms(cb1.changed@)[k].name,
                            );
                        let p = abs_bms(cb1.changed@)[k].name;
                        assert(has_path(abs_bms(cb1.changed@), p));
                        assert(resolved_changed(b_loses, ba, aa, sa, p));
                    } else {
                        let k = choose|k: int|
                            0 <= k < cb1.deleted@.len() && !has_path(
                                aa,
                                #[trigger] abs_dels(cb1.deleted@)[k].name,
                            );
                        let p = abs_dels(cb1.deleted@)[k].name;
                        assert(d_has_path(abs_dels(cb1.deleted@), p));
                        assert(resolved_deleted(b_loses, ba, aa, sa, p));
                    }
                }
            }
            return Err(e);
        },
    }
    proof {
        lemma_same_names(abs_bms(ca1.changed@), abs_bms(ca.changed@));
        lemma_d_same_names(abs_dels(ca1.deleted@), abs_dels(ca.deleted@));
        lemma_same_names(abs_bms(cb1.changed@), abs_bms(cb.changed@));
        lemma_d_same_names(abs_dels(cb1.deleted@), abs_dels(cb.deleted@));
        assert(side_changes_post(a_loses, aa, ba, sa, ca)) by {
            assert forall|k: int|
                0 <= k < ca.changed@.len() implies {
                let e = #[trigger] abs_bms(ca.changed@)[k];
                &&& has_path(aa, e.name)
                &&& has_path(ba, e.name)
                &&& e.url == url_at(aa, e.name)
                &&& e.lastmodified == lastmodified_at(aa, e.name)
                &&& e.id == id_at(ba, e.name)
            } by {
                let e0 = abs_bms(ca1.changed@)[k];
                assert(entry_of(aa, e0));
                let j = choose|j: int| 0 <= j < aa.len() && aa[j] == e0;
                lemma_idx_unique(aa, j);
            }
            assert forall|k: int|
                0 <= k < ca.deleted@.len() implies {
                let e = #[trigger] abs_dels(ca.deleted@)[k];
                has_path(ba, e.name) && e.id == id_at(ba, e.name)
            } by {
                let e0 = abs_dels(ca1.deleted@)[k];
                assert(abs_dels(ca1.deleted@)[k].name == e0.name);
            }
        }
        assert(side_changes_post(b_loses, ba, aa, sa, cb)) by {
            assert forall|k: int|
                0 <= k < cb.changed@.len() implies {
                let e = #[trigger] abs_bms(cb.changed@)[k];
                &&& has_path(ba, e.name)
                &&& has_path(aa, e.name)
                &&& e.url == url_at(ba, e.name)
                &&& e.lastmodified == lastmodified_at(ba, e.name)
                &&& e.id == id_at(aa, e.name)
            } by {
                let e0 = abs_bms(cb1.changed@)[k];
                assert(entry_of(ba, e0));
                let j = choose|j: int| 0 <= j < ba.len() && ba[j] == e0;
                lemma_idx_unique(ba, j);
            }
            assert forall|k: int|
                0 <= k < cb.deleted@.len() implies {
                let e = #[trigger] abs_dels(cb.deleted@)[k];
                has_path(aa, e.name) && e.id == id_at(aa, e.name)
            } by {
                let e0 = abs_dels(cb1.deleted@)[k];
                assert(abs_dels(cb1.deleted@)[k].name == e0.name);
            }
        }
        assert(ca.disjoint_categories()) by {
            assert forall|p: Seq<char>|
                has_path(abs_bms(ca.new@), p) implies !has_path(abs_bms(ca.changed@), p)
                && !d_has_path(abs_dels(ca.deleted@), p) by {}
            assert forall|p: Seq<char>|
                has_path(abs_bms(ca.changed@), p) implies !d_has_path(abs_dels(ca.deleted@), p) by {}
        }
        assert(cb.disjoint_categories()) by {
            assert forall|p: Seq<char>|
                has_path(abs_bms(cb.new@), p) implies !has_path(abs_bms(cb.changed@), p)
                && !d_has_path(abs_dels(cb.deleted@), p) by {}
            assert forall|p: Seq<char>|
                has_path(abs_bms(cb.changed@), p) implies !d_has_path(abs_dels(cb.deleted@), p) by {}
        }
    }
    let ghost na = abs_bms(cb.new@);
    let ghost ch = abs_bms(cb.changed@);
    let ghost dl = abs_dels(cb.deleted@);
    let mut ns: Vec<SBookmark> = Vec::new();
    let mut i: usize = 0;
    while i < a.len()
        invariant
            i <= a.len(),
            s_uniq_paths(abs_sbms(ns@)),
            forall|p: Seq<char>|
                #![trigger s_has_path(abs_sbms(ns@), p)]
                #![trigger has_path(aa, p)]
                s_has_path(abs_sbms(ns@), p) <==> (has_path(aa.take(i as int), p) && !d_has_path(
                    dl,
                    p,
                )),
            forall|p: Seq<char>|
                #[trigger] s_has_path(abs_sbms(ns@), p) ==> s_url_at(abs_sbms(ns@), p) == (if
                has_path(na, p) || has_path(ch, p) {
                    url_at(ba, p)
                } else {
                    url_at(aa, p)
                }),
            forall|p: Seq<char>|
                #[trigger] s_has_path(abs_sbms(ns@), p) ==> s_lastmodified_at(abs_sbms(ns@), p)
                    == (if has_path(na, p) || has_path(ch, p) {
                    lastmodified_at(ba, p)
                } else {
                    lastmodified_at(aa, p)
                }),
        decreases a.len() - i,
    {
        let ghost pre = abs_sbms(ns@);
        let ghost e = aa[i as int];
        proof {
            assert(e == a@[i as int]@);
            assert(aa.take(i + 1) =~= aa.take(i as int).push(e));
            lemma_take_fresh(aa, i as int);
            lemma_idx_unique(aa, i as int);
        }
        if find_deletion(&cb.deleted, &a[i].name).is_none() {
            let entry = match find_bookmark(&cb.changed, &a[i].name) {
                Some(j) => {
                    proof {
                        assert(abs_bms(cb.changed@)[j as int].name == e.name);
                        assert(has_path(ch, e.name));
                    }
                    SBookmark {
                        name: a[i].name.clone(),
                        url: cb.changed[j].url.clone(),
                        lastmodified: cb.changed[j].lastmodified,
                    }
                },
                None => {
                    match find_bookmark(&cb.new, &a[i].name) {
                        Some(j) => {
                            proof {
                                assert(abs_bms(cb.new@)[j as int].name == e.name);
                                assert(has_path(na, e.name));
                                let en = abs_bms(cb.new@)[j as int];
                                assert(entry_of(ba, en));
                                let m = choose|m: int| 0 <= m < ba.len() && ba[m] == en;
                                lemma_idx_unique(ba, m);
                                assert(en.url == url_at(ba, e.name));
                            }
                            SBookmark {
                                name: a[i].name.clone(),
                                url: cb.new[j].url.clone(),
                                lastmodified: cb.new[j].lastmodified,
                            }
                        },
                        None => {
                            SBookmark {
                                name: a[i].name.clone(),
                                url: a[i].url.clone(),
                                lastmodified: a[i].lastmodified,
                            }
                        },
                    }
                },
            };
            let ghost nsv = ns@;
            let ghost eg = entry@;
            proof {
                assert(eg.name == e.name);
                assert(!s_has_path(pre, e.name));
            }
            ns.push(entry);
            proof {
                lemma_abs_sbms_push(nsv, ns@[nsv.len() as int]);
                assert(abs_sbms(ns@) == pre.push(eg));
                lemma_s_url_at_push(pre, eg);
                assert forall|p: Seq<char>|
                    #![trigger s_has_path(abs_sbms(ns@), p)]
                    #![trigger has_path(aa, p)]
                    s_has_path(abs_sbms(ns@), p) <==> (has_path(aa.take(i + 1), p) && !d_has_path(
                        dl,
                        p,
                    )) by {
                    lemma_s_has_path_push(pre, eg, p);
                    lemma_has_path_push(aa.take(i as int), e, p);
                }
                assert forall|p: Seq<char>|
                    #[trigger] s_has_path(abs_sbms(ns@), p) implies s_url_at(abs_sbms(ns@), p)
                    == (if has_path(na, p) || has_path(ch, p) {
                    url_at(ba, p)
                } else {
                    url_at(aa, p)
                }) by {
                    lemma_s_has_path_push(pre, eg, p);
                    if p == e.name {
                        assert(s_url_at(abs_sbms(ns@), p) == eg.url);
                    }
                }
                assert forall|p: Seq<char>|
                    #[trigger] s_has_path(abs_sbms(ns@), p) implies s_lastmodified_at(
                    abs_sbms(ns@),
                    p,
                ) == (if has_path(na, p) || has_path(ch, p) {
                    lastmodified_at(ba, p)
                } else {
                    lastmodified_at(aa, p)
                }) by {
                    lemma_s_has_path_push(pre, eg, p);
                    if p == e.name {
                        assert(s_lastmodified_at(abs_sbms(ns@), p) == eg.lastmodified);
                    }
                }
            }
        } else {
            proof {
                assert forall|p: Seq<char>|
                    #![trigger s_has_path(abs_sbms(ns@), p)]
                    #![trigger has_path(aa, p)]
                    s_has_path(abs_sbms(ns@), p) <==> (has_path(aa.take(i + 1), p) && !d_has_path(
                        dl,
                        p,
                    )) by {
                    lemma_has_path_push(aa.take(i as int), e, p);
                }
            }
        }
        i += 1;
    }
    proof {
        assert(aa.take(a@.len() as int) =~= aa);
    }
    let mut k: usize = 0;
    while k < cb.new.len()
        invariant
            k <= cb.new.len(),
            s_uniq_paths(abs_sbms(ns@)),
            forall|p: Seq<char>|
                #![trigger s_has_path(abs_sbms(ns@), p)]
                #![trigger has_path(aa, p)]
                s_has_path(abs_sbms(ns@), p) <==> ((has_path(aa, p) || has_path(
                    na.take(k as int),
                    p,
                )) && !d_has_path(dl, p)),
            forall|p: Seq<char>|
                #[trigger] s_has_path(abs_sbms(ns@), p) ==> s_url_at(abs_sbms(ns@), p) == (if
                has_path(na, p) || has_path(ch, p) {
                    url_at(ba, p)
                } else {
                    url_at(aa, p)
                }),
            forall|p: Seq<char>|
                #[trigger] s_has_path(abs_sbms(ns@), p) ==> s_lastmodified_at(abs_sbms(ns@), p)
                    == (if has_path(na, p) || has_path(ch, p) {
                    lastmodified_at(ba, p)
                } else {
                    lastmodified_at(aa, p)
                }),
        decreases cb.new.len() - k,
    {
        let ghost pre = abs_sbms(ns@);
        let ghost e = na[k as int];
        proof {
            assert(e == cb.new@[k as int]@);
            assert(na.take(k + 1) =~= na.take(k as int).push(e));
            lemma_take_fresh(na, k as int);
        }
        if find_bookmark(a, &cb.new[k].name).is_none() {
            proof {
                assert(!has_path(aa, e.name));
                assert(!d_has_path(dl, e.name)) by {
                    assert(has_path(na, e.name));
                    if d_has_path(dl, e.name) {
                        assert(resolved_deleted(b_loses, ba, aa, sa, e.name));
                        assert(resolved_new(b_loses, ba, aa, sa, e.name));
                    }
                }
                assert(!s_has_path(pre, e.name));
                assert(entry_of(ba, e));
                let m = choose|m: int| 0 <= m < ba.len() && ba[m] == e;
                lemma_idx_unique(ba, m);
                assert(e.url == url_at(ba, e.name));
            }
            let entry = SBookmark {
                name: cb.new[k].name.clone(),
                url: cb.new[k].url.clone(),
                lastmodified: cb.new[k].lastmodified,
            };
            let ghost nsv = ns@;
            let ghost eg = entry@;
            ns.push(entry);
            proof {
                lemma_abs_sbms_push(nsv, ns@[nsv.len() as int]);
                assert(abs_sbms(ns@) == pre.push(eg));
                lemma_s_url_at_push(pre, eg);
                assert forall|p: Seq<char>|
                    #![trigger s_has_path(abs_sbms(ns@), p)]
                    #![trigger has_path(aa, p)]
                    s_has_path(abs_sbms(ns@), p) <==> ((has_path(aa, p) || has_path(
                        na.take(k + 1),
                        p,
                    )) && !d_has_path(dl, p)) by {
                    lemma_s_has_path_push(pre, eg, p);
                    lemma_has_path_push(na.take(k as int), e, p);
                }
                assert forall|p: Seq<char>|
                    #[trigger] s_has_path(abs_sbms(ns@), p) implies s_url_at(abs_sbms(ns@), p)
                    == (if has_path(na, p) || has_path(ch, p) {
                    url_at(ba, p)
                } else {
                    url_at(aa, p)
                }) by {
                    lemma_s_has_path_push(pre, eg, p);
                    if p == e.name {
                        assert(s_url_at(abs_sbms(ns@), p) == eg.url);
                    }
                }
                assert forall|p: Seq<char>|
                    #[trigger] s_has_path(abs_sbms(ns@), p) implies s_lastmodified_at(
                    abs_sbms(ns@),
                    p,
                ) == (if has_path(na, p) || has_path(ch, p) {
                    lastmodified_at(ba, p)
                } else {
                    lastmodified_at(aa, p)
                }) by {
                    lemma_s_has_path_push(pre, eg, p);
                    if p == e.name {
                        assert(s_lastmodified_at(abs_sbms(ns@), p) == eg.lastmodified);
                    }
                }
            }
        } else {
            proof {
                assert forall|p: Seq<char>|
                    #![trigger s_has_path(abs_sbms(ns@), p)]
                    #![trigger has_path(aa, p)]
                    s_has_path(abs_sbms(ns@), p) <==> ((has_path(aa, p) || has_path(
                        na.take(k + 1),
                        p,
                    )) && !d_has_path(dl, p)) by {
                    lemma_has_path_push(na.take(k as int), e, p);
                }
            }
        }
        k += 1;
    }
    let u = Update { a: cb, b: ca, new_state: ns };
    proof {
        assert(na.take(cb.new@.len() as int) =~= na);
        assert(new_state_post(aa, ba, u));
        assert(snapshot_diff_ok(cr, aa, ba, sa)) by {
            if cr == ConflictResolution::Error {
                assert forall|p: Seq<char>|
                    !(#[trigger] delta_new(aa, sa, p) && delta_new(ba, sa, p)) by {
                    assert(!(has_path(abs_bms(ca0.new@), p) && has_path(abs_bms(cb0.new@), p)));
                }
                assert forall|p: Seq<char>|
                    !(#[trigger] delta_changed(aa, sa, p) && delta_changed(ba, sa, p)) by {
                    assert(!(has_path(abs_bms(ca0.changed@), p) && has_path(
                        abs_bms(cb0.changed@),
                        p,
                    )));
                }
                assert forall|p: Seq<char>|
                    !(#[trigger] delta_deleted(aa, sa, p) && delta_deleted(ba, sa, p)) by {
                    assert(!(d_has_path(abs_dels(ca0.deleted@), p) && d_has_path(
                        abs_dels(cb0.deleted@),
                        p,
                    )));
                }
            }
            assert forall|p: Seq<char>|
                #[trigger] resolved_changed(a_loses, aa, ba, sa, p) implies has_path(ba, p) by {
                assert(has_path(abs_bms(ca1.changed@), p));
                let m = idx_of(abs_bms(ca1.changed@), p);
                assert(has_path(ba, abs_bms(ca1.changed@)[m].name));
            }
            assert forall|p: Seq<char>|
                #[trigger] resolved_deleted(a_loses, aa, ba, sa, p) implies has_path(ba, p) by {
                assert(d_has_path(abs_dels(ca1.deleted@), p));
                let m = d_idx_of(abs_dels(ca1.deleted@), p);
                assert(has_path(ba, abs_dels(ca1.deleted@)[m].name));
            }
            assert forall|p: Seq<char>|
                #[trigger] resolved_changed(b_loses, ba, aa, sa, p) implies has_path(aa, p) by {
                assert(has_path(abs_bms(cb1.changed@), p));
                let m = idx_of(abs_bms(cb1.changed@), p);
                assert(has_path(aa, abs_bms(cb1.changed@)[m].name));
            }
            assert forall|p: Seq<char>|
                #[trigger] resolved_deleted(b_loses, ba, aa, sa, p) implies has_path(aa, p) by {
                assert(d_has_path(abs_dels(cb1.deleted@), p));
                let m = d_idx_of(abs_dels(cb1.deleted@), p);
                assert(has_path(aa, abs_dels(cb1.deleted@)[m].name));
            }
        }
    }
    Ok(u)
}

/// No path is present on both sides with differing urls.
pub open spec fn no_url_conflicts(a: Seq<BookmarkModel>, b: Seq<BookmarkModel>) -> bool {
    forall|p: Seq<char>|
        #![trigger has_path(a, p)]
        #![trigger has_path(b, p)]
        !(has_path(a, p) && has_path(b, p) && url_at(a, p) != url_at(b, p))
}

/// The result of the blind union of a master and a slave listing: `cm` is
/// applied to the master (the slave-only entries), `cs` to the slave (the
/// master-only entries as `new`, and the conflicting entries as `changed`
/// carrying the master's url and the slave's id), and `ns` is the merged
/// state in which the master's binding wins.
pub open spec fn initial_merge_ok(
    ma: Seq<BookmarkModel>,
    sla: Seq<BookmarkModel>,
    cm: Changes,
    cs: Changes,
    ns: Seq<SBookmarkModel>,
) -> bool {
    &&& cm.wf() && cs.wf()
    &&& cm.disjoint_categories() && cs.disjoint_categories()
    &&& cm.changed@.len() == 0 && cm.deleted@.len() == 0 && cs.deleted@.len() == 0
    &&& forall|p: Seq<char>|
        #![trigger has_path(abs_bms(cm.new@), p)]
        #![trigger has_path(ma, p)]
        has_path(abs_bms(cm.new@), p) <==> (has_path(sla, p) && !has_path(ma, p))
    &&& forall|k: int|
        0 <= k < cm.new@.len() ==> {
            let e = #[trigger] abs_bms(cm.new@)[k];
            e.id == 0 && e.url == url_at(sla, e.name) && e.lastmodified == lastmodified_at(
                sla,
                e.name,
            )
        }
    &&& forall|p: Seq<char>|
        #![trigger has_path(abs_bms(cs.new@), p)]
        #![trigger has_path(sla, p)]
        has_path(abs_bms(cs.new@), p) <==> (has_path(ma, p) && !has_path(sla, p))
    &&& forall|k: int|
        0 <= k < cs.new@.len() ==> {
            let e = #[trigger] abs_bms(cs.new@)[k];
            e.id == 0 && e.url == url_at(ma, e.name) && e.lastmodified == lastmodified_at(
                ma,
                e.name,
            )
        }
    &&& forall|p: Seq<char>|
        #![trigger has_path(abs_bms(cs.changed@), p)]
        #![trigger has_path(sla, p)]
        has_path(abs_bms(cs.changed@), p) <==> (has_path(ma, p) && has_path(sla, p) && url_at(
            ma,
            p,
        ) != url_at(sla, p))
    &&& forall|k: int|
        0 <= k < cs.changed@.len() ==> {
            let e = #[trigger] abs_bms(cs.changed@)[k];
            e.id == id_at(sla, e.name) && e.url == url_at(ma, e.name) && e.lastmodified
                == lastmodified_at(ma, e.name)
        }
    &&& s_uniq_paths(ns)
    &&& forall|p: Seq<char>|
        #![trigger s_has_path(ns, p)]
        #![trigger has_path(ma, p)]
        s_has_path(ns, p) <==> (has_path(ma, p) || has_path(sla, p))
    &&& forall|p: Seq<char>|
        #[trigger] s_has_path(ns, p) ==> s_url_at(ns, p) == (if has_path(ma, p) {
            url_at(ma, p)
        } else {
            url_at(sla, p)
        })
    &&& forall|p: Seq<char>|
        #[trigger] s_has_path(ns, p) ==> s_lastmodified_at(ns, p) == (if has_path(ma, p) {
            lastmodified_at(ma, p)
        } else {
            lastmodified_at(sla, p)
        })
}

/// The full contract of the initial sync (no prior snapshot): the master is
/// side A unless the policy is `BWins`, the two sides exchange their missing
/// entries, a url disagreement is either an error or a scheduled overwrite
/// of the slave, and the snapshot is the master-merged union.
pub open spec fn initial_diff_post(
    cr: ConflictResolution,
    a: Seq<BookmarkModel>,
    b: Seq<BookmarkModel>,
    r: Result<Update, Error>,
) -> bool {
    &&& match r {
        Ok(u) => if cr == ConflictResolution::BWins {
            initial_merge_ok(b, a, u.b, u.a, abs_sbms(u.new_state@))
        } else {
            initial_merge_ok(a, b, u.a, u.b, abs_sbms(u.new_state@))
        },
        Err(e) => match e {
            Error::Conflict(q) => cr == ConflictResolution::Error && has_path(a, q@) && has_path(
                b,
                q@,
            ) && url_at(a, q@) != url_at(b, q@),
            _ => false,
        },
    }
    &&& (r is Ok <==> (cr != ConflictResolution::Error || no_url_conflicts(a, b)))
}

#[verifier::loop_isolation(false)]
#[verifier::rlimit(60)]
fn initial_merge(cr: ConflictResolution, m: &Vec<Bookmark>, sl: &Vec<Bookmark>) -> (r: Result<
    (Changes, Changes, Vec<SBookmark>),
    Error,
>)
    requires
        uniq_paths(abs_bms(m@)),
        uniq_paths(abs_bms(sl@)),
    ensures
        match r {
            Ok((cm, cs, ns)) => initial_merge_ok(abs_bms(m@), abs_bms(sl@), cm, cs, abs_sbms(ns@)),
            Err(e) => match e {
                Error::Conflict(q) => cr == ConflictResolution::Error && has_path(abs_bms(m@), q@)
                    && has_path(abs_bms(sl@), q@) && url_at(abs_bms(m@), q@) != url_at(
                    abs_bms(sl@),
                    q@,
                ),
                _ => false,
            },
        },
        r is Ok <==> (cr != ConflictResolution::Error || no_url_conflicts(
            abs_bms(m@),
            abs_bms(sl@),
        )),
{
    let ghost ma = abs_bms(m@);
    let ghost sla = abs_bms(sl@);
    let mut cm_new: Vec<Bookmark> = Vec::new();
    let mut cs_changed: Vec<Bookmark> = Vec::new();
    let mut i: usize = 0;
    while i < sl.len()
        invariant
            i <= sl.len(),
            uniq_paths(abs_bms(cm_new@)),
            uniq_paths(abs_bms(cs_changed@)),
            forall|p: Seq<char>|
                #![trigger has_path(abs_bms(cm_new@), p)]
                #![trigger has_path(ma, p)]
                has_path(abs_bms(cm_new@), p) <==> (has_path(sla.take(i as int), p) && !has_path(
                    ma,
                    p,
                )),
            forall|k: int|
                0 <= k < cm_new@.len() ==> {
                    let e = #[trigger] abs_bms(cm_new@)[k];
                    e.id == 0 && has_path(sla, e.name) && e.url == url_at(sla, e.name)
                        && e.lastmodified == lastmodified_at(sla, e.name)
                },
            forall|p: Seq<char>|
                #![trigger has_path(abs_bms(cs_changed@), p)]
                #![trigger has_path(ma, p)]
                has_path(abs_bms(cs_changed@), p) <==> (has_path(sla.take(i as int), p) && has_path(
                    ma,
                    p,
                ) && url_at(ma, p) != url_at(sla, p)),
            forall|k: int|
                0 <= k < cs_changed@.len() ==> {
                    let e = #[trigger] abs_bms(cs_changed@)[k];
                    e.id == id_at(sla, e.name) && e.url == url_at(ma, e.name) && e.lastmodified
                        == lastmodified_at(ma, e.name)
                },
            cr == ConflictResolution::Error ==> forall|k: int|
                0 <= k < i ==> !(has_path(ma, #[trigger] sla[k].name) && url_at(ma, sla[k].name)
                    != url_at(sla, sla[k].name)),
        decreases sl.len() - i,
    {
        let ghost pre = sla.take(i as int);
        let ghost e = sla[i as int];
        proof {
            assert(e == sl@[i as int]@);
            assert(sla.take(i + 1) =~= pre.push(e));
            lemma_take_fresh(sla, i as int);
            lemma_idx_unique(sla, i as int);
        }
        match find_bookmark(m, &sl[i].name) {
            None => {
                let ghost before = cm_new@;
                let nb = Bookmark {
                    id: 0,
                    name: sl[i].name.clone(),
                    url: sl[i].url.clone(),
                    lastmodified: sl[i].lastmodified,
                };
                let ghost nbg = nb;
                cm_new.push(nb);
                proof {
                    lemma_abs_bms_push(before, nbg);
                    lemma_uniq_push(abs_bms(before), nbg@);
                    assert forall|p: Seq<char>|
                        #![trigger has_path(abs_bms(cm_new@), p)]
                        #![trigger has_path(ma, p)]
                        has_path(abs_bms(cm_new@), p) <==> (has_path(sla.take(i + 1), p)
                            && !has_path(ma, p)) by {
                        lemma_has_path_push(abs_bms(before), nbg@, p);
                        lemma_has_path_push(pre, e, p);
                    }
                    assert forall|p: Seq<char>|
                        #![trigger has_path(abs_bms(cs_changed@), p)]
                        #![trigger has_path(ma, p)]
                        has_path(abs_bms(cs_changed@), p) <==> (has_path(sla.take(i + 1), p)
                            && has_path(ma, p) && url_at(ma, p) != url_at(sla, p)) by {
                        lemma_has_path_push(pre, e, p);
                    }
                }
            },
            Some(j) => {
                proof {
                    assert(ma[j as int] == m@[j as int]@);
                    lemma_idx_unique(ma, j as int);
                    assert(url_at(ma, e.name) == ma[j as int].url);
                }
                if m[j].url != sl[i].url {
                    match cr {
                        ConflictResolution::Error => {
                            let q = Error::Conflict(sl[i].name.clone());
                            proof {
                                assert(has_path(ma, e.name) && has_path(sla, e.name));
                                assert(url_at(ma, e.name) != url_at(sla, e.name));
                                assert(is_conflict(q, e.name));
                            }
                            return Err(q);
                        },
                        _ => {
                            let ghost before = cs_changed@;
                            let nb = Bookmark {
                                id: sl[i].id,
                                name: sl[i].name.clone(),
                                url: m[j].url.clone(),
                                lastmodified: m[j].lastmodified,
                            };
                            let ghost nbg = nb;
                            cs_changed.push(nb);
                            proof {
                                lemma_abs_bms_push(before, nbg);
                                lemma_uniq_push(abs_bms(before), nbg@);
                                assert forall|p: Seq<char>|
                                    #![trigger has_path(abs_bms(cs_changed@), p)]
                                    #![trigger has_path(ma, p)]
                                    has_path(abs_bms(cs_changed@), p) <==> (has_path(
                                        sla.take(i + 1),
                                        p,
                                    ) && has_path(ma, p) && url_at(ma, p) != url_at(sla, p)) by {
                                    lemma_has_path_push(abs_bms(before), nbg@, p);
                                    lemma_has_path_push(pre, e, p);
                                }
                                assert forall|p: Seq<char>|
                                    #![trigger has_path(abs_bms(cm_new@), p)]
                                    #![trigger has_path(ma, p)]
                                    has_path(abs_bms(cm_new@), p) <==> (has_path(sla.take(i + 1), p)
                                        && !has_path(ma, p)) by {
                                    lemma_has_path_push(pre, e, p);
                                }
                            }
                        },
                    }
                } else {
                    proof {
                        assert(url_at(ma, e.name) == url_at(sla, e.name));
                        assert forall|p: Seq<char>|
                            #![trigger has_path(abs_bms(cm_new@), p)]
                            #![trigger has_path(ma, p)]
                            has_path(abs_bms(cm_new@), p) <==> (has_path(sla.take(i + 1), p)
                                && !has_path(ma, p)) by {
                            lemma_has_path_push(pre, e, p);
                        }
                        assert forall|p: Seq<char>|
                            #![trigger has_path(abs_bms(cs_changed@), p)]
                            #![trigger has_path(ma, p)]
                            has_path(abs_bms(cs_changed@), p) <==> (has_path(sla.take(i + 1), p)
                                && has_path(ma, p) && url_at(ma, p) != url_at(sla, p)) by {
                            lemma_has_path_push(pre, e, p);
                        }
                    }
                }
            },
        }
        i += 1;
    }
    proof {
        assert(sla.take(sl@.len() as int) =~= sla);
    }
    let mut cs_new: Vec<Bookmark> = Vec::new();
    let mut ns: Vec<SBookmark> = Vec::new();
    let mut j: usize = 0;
    while j < m.len()
        invariant
            j <= m.len(),
            uniq_paths(abs_bms(cs_new@)),
            s_uniq_paths(abs_sbms(ns@)),
            forall|p: Seq<char>|
                #![trigger has_path(abs_bms(cs_new@), p)]
                #![trigger has_path(sla, p)]
                has_path(abs_bms(cs_new@), p) <==> (has_path(ma.take(j as int), p) && !has_path(
                    sla,
                    p,
                )),
            forall|k: int|
                0 <= k < cs_new@.len() ==> {
                    let e = #[trigger] abs_bms(cs_new@)[k];
                    e.id == 0 && has_path(ma, e.name) && e.url == url_at(ma, e.name)
                        && e.lastmodified == lastmodified_at(ma, e.name)
                },
            forall|p: Seq<char>|
                #![trigger s_has_path(abs_sbms(ns@), p)]
                #![trigger has_path(ma, p)]
                s_has_path(abs_sbms(ns@), p) <==> has_path(ma.take(j as int), p),
            forall|p: Seq<char>|
                #[trigger] s_has_path(abs_sbms(ns@), p) ==> s_url_at(abs_sbms(ns@), p) == url_at(
                    ma,
                    p,
                ) && s_lastmodified_at(abs_sbms(ns@), p) == lastmodified_at(ma, p),
        decreases m.len() - j,
    {
        let ghost pre = abs_sbms(ns@);
        let ghost e = ma[j as int];
        proof {
            assert(e == m@[j as int]@);
            assert(ma.take(j + 1) =~= ma.take(j as int).push(e));
            lemma_take_fresh(ma, j as int);
            lemma_idx_unique(ma, j as int);
        }
        let entry = SBookmark {
            name: m[j].name.clone(),
            url: m[j].url.clone(),
            lastmodified: m[j].lastmodified,
        };
        let ghost nsv = ns@;
        let ghost eg = entry@;
        ns.push(entry);
        proof {
            lemma_abs_sbms_push(nsv, ns@[nsv.len() as int]);
            assert(abs_sbms(ns@) == pre.push(eg));
            lemma_s_url_at_push(pre, eg);
            assert forall|p: Seq<char>|
                #![trigger s_has_path(abs_sbms(ns@), p)]
                #![trigger has_path(ma, p)]
                s_has_path(abs_sbms(ns@), p) <==> has_path(ma.take(j + 1), p) by {
                lemma_s_has_path_push(pre, eg, p);
                lemma_has_path_push(ma.take(j as int), e, p);
            }
            assert forall|p: Seq<char>|
                #[trigger] s_has_path(abs_sbms(ns@), p) implies s_url_at(abs_sbms(ns@), p)
                == url_at(ma, p) && s_lastmodified_at(abs_sbms(ns@), p) == lastmodified_at(
                ma,
                p,
            ) by {
                lemma_s_has_path_push(pre, eg, p);
                if p == e.name {
                    assert(s_url_at(abs_sbms(ns@), p) == eg.url);
                    assert(s_lastmodified_at(abs_sbms(ns@), p) == eg.lastmodified);
                }
            }
        }
        match find_bookmark(sl, &m[j].name) {
            None => {
                let ghost before = cs_new@;
                let nb = Bookmark {
                    id: 0,
                    name: m[j].name.clone(),
                    url: m[j].url.clone(),
                    lastmodified: m[j].lastmodified,
                };
                let ghost nbg = nb;
                cs_new.push(nb);
                proof {
                    lemma_abs_bms_push(before, nbg);
                    lemma_uniq_push(abs_bms(before), nbg@);
                    assert forall|p: Seq<char>|
                        #![trigger has_path(abs_bms(cs_new@), p)]
                        #![trigger has_path(sla, p)]
                        has_path(abs_bms(cs_new@), p) <==> (has_path(ma.take(j + 1), p)
                            && !has_path(sla, p)) by {
                        lemma_has_path_push(abs_bms(before), nbg@, p);
                        lemma_has_path_push(ma.take(j as int), e, p);
                    }
                }
            },
            Some(_) => {
                proof {
                    assert forall|p: Seq<char>|
                        #![trigger has_path(abs_bms(cs_new@), p)]
                        #![trigger has_path(sla, p)]
                        has_path(abs_bms(cs_new@), p) <==> (has_path(ma.take(j + 1), p)
                            && !has_path(sla, p)) by {
                        lemma_has_path_push(ma.take(j as int), e, p);
                    }
                }
            },
        }
        j += 1;
    }
    proof {
        assert(ma.take(m@.len() as int) =~= ma);
    }
    let mut i2: usize = 0;
    while i2 < sl.len()
        invariant
            i2 <= sl.len(),
            s_uniq_paths(abs_sbms(ns@)),
            forall|p: Seq<char>|
                #![trigger s_has_path(abs_sbms(ns@), p)]
                #![trigger has_path(ma, p)]
                s_has_path(abs_sbms(ns@), p) <==> (has_path(ma, p) || has_path(
                    sla.take(i2 as int),
                    p,
                )),
            forall|p: Seq<char>|
                #[trigger] s_has_path(abs_sbms(ns@), p) ==> s_url_at(abs_sbms(ns@), p) == (if
                has_path(ma, p) {
                    url_at(ma, p)
                } else {
                    url_at(sla, p)
                }),
            forall|p: Seq<char>|
                #[trigger] s_has_path(abs_sbms(ns@), p) ==> s_lastmodified_at(abs_sbms(ns@), p)
                    == (if has_path(ma, p) {
                    lastmodified_at(ma, p)
                } else {
                    lastmodified_at(sla, p)
                }),
        decreases sl.len() - i2,
    {
        let ghost pre = abs_sbms(ns@);
        let ghost e = sla[i2 as int];
        proof {
            assert(e == sl@[i2 as int]@);
            assert(sla.take(i2 + 1) =~= sla.take(i2 as int).push(e));
            lemma_take_fresh(sla, i2 as int);
            lemma_idx_unique(sla, i2 as int);
        }
        match find_bookmark(m, &sl[i2].name) {
            None => {
                let entry = SBookmark {
                    name: sl[i2].name.clone(),
                    url: sl[i2].url.clone(),
                    lastmodified: sl[i2].lastmodified,
                };
                let ghost nsv = ns@;
                let ghost eg = entry@;
                proof {
                    assert(!s_has_path(pre, e.name));
                }
                ns.push(entry);
                proof {
                    lemma_abs_sbms_push(nsv, ns@[nsv.len() as int]);
                    assert(abs_sbms(ns@) == pre.push(eg));
                    lemma_s_url_at_push(pre, eg);
                    assert forall|p: Seq<char>|
                        #![trigger s_has_path(abs_sbms(ns@), p)]
                        #![trigger has_path(ma, p)]
                        s_has_path(abs_sbms(ns@), p) <==> (has_path(ma, p) || has_path(
                            sla.take(i2 + 1),
                            p,
                        )) by {
                        lemma_s_has_path_push(pre, eg, p);
                        lemma_has_path_push(sla.take(i2 as int), e, p);
                    }
                    assert forall|p: Seq<char>|
                        #[trigger] s_has_path(abs_sbms(ns@), p) implies s_url_at(abs_sbms(ns@), p)
                        == (if has_path(ma, p) {
                        url_at(ma, p)
                    } else {
                        url_at(sla, p)
                    }) by {
                        lemma_s_has_path_push(pre, eg, p);
                        if p == e.name {
                            assert(s_url_at(abs_sbms(ns@), p) == eg.url);
                        }
                    }
                    assert forall|p: Seq<char>|
                        #[trigger] s_has_path(abs_sbms(ns@), p) implies s_lastmodified_at(
                        abs_sbms(ns@),
                        p,
                    ) == (if has_path(ma, p) {
                        lastmodified_at(ma, p)
                    } else {
                        lastmodified_at(sla, p)
                    }) by {
                        lemma_s_has_path_push(pre, eg, p);
                        if p == e.name {
                            assert(s_lastmodified_at(abs_sbms(ns@), p) == eg.lastmodified);
                        }
                    }
                }
            },
            Some(_) => {
                proof {
                    assert forall|p: Seq<char>|
                        #![trigger s_has_path(abs_sbms(ns@), p)]
                        #![trigger has_path(ma, p)]
                        s_has_path(abs_sbms(ns@), p) <==> (has_path(ma, p) || has_path(
                            sla.take(i2 + 1),
                            p,
                        )) by {
                        lemma_has_path_push(sla.take(i2 as int), e, p);
                    }
                }
            },
        }
        i2 += 1;
    }
    proof {
        assert(sla.take(sl@.len() as int) =~= sla);
    }
    let cm = Changes { new: cm_new, changed: Vec::new(), deleted: Vec::new() };
    let cs = Changes { new: cs_new, changed: cs_changed, deleted: Vec::new() };
    proof {
        if cr == ConflictResolution::Error {
            assert forall|p: Seq<char>|
                #![trigger has_path(ma, p)]
                #![trigger has_path(sla, p)]
                !(has_path(ma, p) && has_path(sla, p) && url_at(ma, p) != url_at(sla, p)) by {
                if has_path(sla, p) {
                    let k = idx_of(sla, p);
                    assert(!(has_path(ma, sla[k].name) && url_at(ma, sla[k].name) != url_at(
                        sla,
                        sla[k].name,
                    )));
                }
            }
        }
    }
    Ok((cm, cs, ns))
}

/// The diff used when no prior snapshot exists: a blind union with one side
/// designated master by the policy (A unless the policy is `BWins`).
pub fn changes_initial(cr: ConflictResolution, a: &Vec<Bookmark>, b: &Vec<Bookmark>) -> (r: Result<
    Update,
    Error,
>)
    requires
        uniq_paths(abs_bms(a@)),
        uniq_paths(abs_bms(b@)),
    ensures
        initial_diff_post(cr, abs_bms(a@), abs_bms(b@), r),
{
    if cr == ConflictResolution::BWins {
        match initial_merge(cr, b, a) {
            Ok((cm, cs, ns)) => Ok(Update { a: cs, b: cm, new_state: ns }),
            Err(e) => Err(e),
        }
    } else {
        match initial_merge(cr, a, b) {
            Ok((cm, cs, ns)) => Ok(Update { a: cm, b: cs, new_state: ns }),
            Err(e) => Err(e),
        }
    }
}

/// Idempotence on steady state: when both sides' listings bind exactly the
/// paths and urls of the previous snapshot, the three-way diff succeeds,
/// schedules nothing on either side, and keeps the snapshot's path set and
/// bindings unchanged.
pub proof fn lemma_steady_state(
    cr: ConflictResolution,
    a: Seq<BookmarkModel>,
    b: Seq<BookmarkModel>,
    s: Seq<SBookmarkModel>,
    r: Result<Update, Error>,
)
    requires
        snapshot_diff_post(cr, a, b, s, r),
        same_entries(a, s),
        same_entries(b, s),
    ensures
        r is Ok,
        r matches Ok(u) ==> {
            &&& u.a.is_noop() && u.b.is_noop()
            &&& forall|p: Seq<char>|
                #![trigger s_has_path(abs_sbms(u.new_state@), p)]
                #![trigger s_has_path(s, p)]
                s_has_path(abs_sbms(u.new_state@), p) <==> s_has_path(s, p)
            &&& forall|p: Seq<char>|
                #[trigger] s_has_path(s, p) ==> s_url_at(abs_sbms(u.new_state@), p) == s_url_at(
                    s,
                    p,
                )
        },
{
    assert forall|p: Seq<char>| !(#[trigger] delta_new(a, s, p)) by {}
    assert forall|p: Seq<char>| !(#[trigger] delta_new(b, s, p)) by {}
    assert forall|p: Seq<char>| !(#[trigger] delta_changed(a, s, p)) by {}
    assert forall|p: Seq<char>| !(#[trigger] delta_changed(b, s, p)) by {}
    assert forall|p: Seq<char>| !(#[trigger] delta_deleted(a, s, p)) by {}
    assert forall|p: Seq<char>| !(#[trigger] delta_deleted(b, s, p)) by {}
    assert(snapshot_diff_ok(cr, a, b, s));
    match r {
        Ok(u) => {
            assert(u.a.new@.len() == 0) by {
                if u.a.new@.len() > 0 {
                    assert(has_path(abs_bms(u.a.new@), abs_bms(u.a.new@)[0].name));
                }
            }
            assert(u.a.changed@.len() == 0) by {
                if u.a.changed@.len() > 0 {
                    assert(has_path(abs_bms(u.a.changed@), abs_bms(u.a.changed@)[0].name));
                }
            }
            assert(u.a.deleted@.len() == 0) by {
                if u.a.deleted@.len() > 0 {
                    assert(d_has_path(abs_dels(u.a.deleted@), abs_dels(u.a.deleted@)[0].name));
                }
            }
            assert(u.b.new@.len() == 0) by {
                if u.b.new@.len() > 0 {
                    assert(has_path(abs_bms(u.b.new@), abs_bms(u.b.new@)[0].name));
                }
            }
            assert(u.b.changed@.len() == 0) by {
                if u.b.changed@.len() > 0 {
                    assert(has_path(abs_bms(u.b.changed@), abs_bms(u.b.changed@)[0].name));
                }
            }
            assert(u.b.deleted@.len() == 0) by {
                if u.b.deleted@.len() > 0 {
                    assert(d_has_path(abs_dels(u.b.deleted@), abs_dels(u.b.deleted@)[0].name));
                }
            }
            let ns = abs_sbms(u.new_state@);
            assert forall|p: Seq<char>|
                #![trigger s_has_path(ns, p)]
                #![trigger s_has_path(s, p)]
                s_has_path(ns, p) <==> s_has_path(s, p) by {
                assert(!has_path(abs_bms(u.a.new@), p)) by {
                    if has_path(abs_bms(u.a.new@), p) {
                        let k = idx_of(abs_bms(u.a.new@), p);
                    }
                }
                assert(!d_has_path(abs_dels(u.a.deleted@), p)) by {
                    if d_has_path(abs_dels(u.a.deleted@), p) {
                        let k = d_idx_of(abs_dels(u.a.deleted@), p);
                    }
                }
                assert(s_has_path(ns, p) <==> has_path(a, p));
                assert(has_path(a, p) <==> s_has_path(s, p));
            }
            assert forall|p: Seq<char>|
                #[trigger] s_has_path(s, p) implies s_url_at(ns, p) == s_url_at(s, p) by {
                assert(has_path(a, p));
                assert(!has_path(abs_bms(u.a.new@), p)) by {
                    if has_path(abs_bms(u.a.new@), p) {
                        let k = idx_of(abs_bms(u.a.new@), p);
                    }
                }
                assert(!has_path(abs_bms(u.a.changed@), p)) by {
                    if has_path(abs_bms(u.a.changed@), p) {
                        let k = idx_of(abs_bms(u.a.changed@), p);
                    }
                }
                assert(!d_has_path(abs_dels(u.a.deleted@), p)) by {
                    if d_has_path(abs_dels(u.a.deleted@), p) {
                        let k = d_idx_of(abs_dels(u.a.deleted@), p);
                    }
                }
                assert(s_has_path(ns, p));
                assert(s_url_at(ns, p) == url_at(a, p));
                assert(url_at(a, p) == s_url_at(s, p));
            }
        },
        Err(_) => {},
    }
}

/// Snapshot projection: the new snapshot's path set is side A's path set,
/// joined with the paths of A's incoming `new` entries, minus the paths of
/// A's incoming deletions.
pub proof fn lemma_snapshot_projection(a: Seq<BookmarkModel>, b: Seq<BookmarkModel>, u: Update)
    requires
        new_state_post(a, b, u),
    ensures
        forall|p: Seq<char>|
            #![trigger s_has_path(abs_sbms(u.new_state@), p)]
            #![trigger has_path(a, p)]
            s_has_path(abs_sbms(u.new_state@), p) <==> ((has_path(a, p) || has_path(
                abs_bms(u.a.new@),
                p,
            )) && !d_has_path(abs_dels(u.a.deleted@), p)),
{
}

/// Rebinding: every id carried by a side's incoming `changed` or `deleted`
/// entries is the id of some bookmark currently listed on that side.
pub proof fn lemma_rebinding(
    x_loses: bool,
    x: Seq<BookmarkModel>,
    y: Seq<BookmarkModel>,
    s: Seq<SBookmarkModel>,
    c: Changes,
)
    requires
        side_changes_post(x_loses, x, y, s, c),
    ensures
        forall|k: int|
            0 <= k < c.changed@.len() ==> has_id(y, #[trigger] abs_bms(c.changed@)[k].id),
        forall|k: int|
            0 <= k < c.deleted@.len() ==> has_id(y, #[trigger] abs_dels(c.deleted@)[k].id),
{
    assert forall|k: int|
        0 <= k < c.changed@.len() implies has_id(y, #[trigger] abs_bms(c.changed@)[k].id) by {
        let e = abs_bms(c.changed@)[k];
        let j = idx_of(y, e.name);
        assert(0 <= j < y.len() && y[j].id == e.id);
    }
    assert forall|k: int|
        0 <= k < c.deleted@.len() implies has_id(y, #[trigger] abs_dels(c.deleted@)[k].id) by {
        let e = abs_dels(c.deleted@)[k];
        let j = idx_of(y, e.name);
        assert(0 <= j < y.len() && y[j].id == e.id);
    }
}

} // verus!
