//! The matching engine: for each candidate track, a histogram over the
//! offset deltas `db_offset - query_offset`; the track whose histogram mode
//! is largest wins, and a match is reported when that mode clears the
//! threshold.

use crate::storage::{
    flat_matches, group_flat, group_insert, groups_view, row_matches, spec_lookup, Database,
};
use crate::types::SongMetadata;
use vstd::hash_map::HashMapWithView;
use vstd::prelude::*;

verus! {

broadcast use vstd::std_specs::hash::group_hash_axioms;

/// Smallest histogram mode that does not yet count as a match: a track is
/// reported only when its aligned count is strictly above this.
pub const MATCH_THRESHOLD: u64 = 8;

/// The offset delta of one match pair `(db_offset, query_offset)`.
pub open spec fn spec_delta(p: (u32, u32)) -> int {
    p.0 - p.1
}

/// How many pairs of `s` have offset delta `d`.
pub open spec fn spec_count_delta(s: Seq<(u32, u32)>, d: int) -> nat
    decreases s.len(),
{
    if s.len() == 0 {
        0
    } else {
        spec_count_delta(s.drop_last(), d) + if spec_delta(s.last()) == d {
            1nat
        } else {
            0nat
        }
    }
}

/// The histogram mode of a pair list: the count of its most common offset
/// delta, zero for an empty list.
pub open spec fn spec_best_count(s: Seq<(u32, u32)>) -> nat
    decreases s.len(),
{
    if s.len() == 0 {
        0
    } else {
        let c = spec_count_delta(s, spec_delta(s.last()));
        let b = spec_best_count(s.drop_last());
        if c > b {
            c
        } else {
            b
        }
    }
}

/// The winning track over a group list: the one with the largest histogram
/// mode, earlier groups winning ties; `(-1, 0)` when there are no groups.
pub open spec fn spec_best_track(groups: Seq<(i64, Seq<(u32, u32)>)>) -> (i64, nat)
    decreases groups.len(),
{
    if groups.len() == 0 {
        (-1i64, 0nat)
    } else {
        let prev = spec_best_track(groups.drop_last());
        let c = spec_best_count(groups.last().1);
        if c > prev.1 {
            (groups.last().0, c)
        } else {
            prev
        }
    }
}

/// The match decision for a query against a catalog: winning track id and
/// its aligned count.
pub open spec fn spec_best_match(db: Database, q: Seq<(u32, u32)>) -> (i64, nat) {
    spec_best_track(spec_lookup(db, q))
}

/// The histogram mode really is the mode: no delta occurs more often than
/// `spec_best_count(s)` says, and some pair's delta attains it when the
/// list is not empty.
pub proof fn lemma_best_count_is_mode(s: Seq<(u32, u32)>)
    ensures
        forall|k: int|
            0 <= k < s.len() ==> spec_count_delta(s, spec_delta(#[trigger] s[k]))
                <= spec_best_count(s),
        s.len() > 0 ==> exists|k: int|
            0 <= k < s.len() && spec_count_delta(s, spec_delta(#[trigger] s[k]))
                == spec_best_count(s),
    decreases s.len(),
{
    if s.len() == 0 {
    } else {
        let t = s.drop_last();
        lemma_best_count_is_mode(t);
        let d_last = spec_delta(s.last());
        assert forall|d: int| spec_count_delta(t, d) <= #[trigger] spec_count_delta(s, d) by {
            lemma_count_delta_step(s, d);
        }
        assert forall|k: int|
            0 <= k < s.len() implies spec_count_delta(s, spec_delta(#[trigger] s[k]))
            <= spec_best_count(s) by {
            if k < s.len() - 1 {
                let d = spec_delta(s[k]);
                lemma_count_delta_step(s, d);
                assert(t[k] == s[k]);
                if d == d_last {
                } else {
                    assert(spec_count_delta(s, d) == spec_count_delta(t, d));
                }
            }
        }
        if spec_count_delta(s, d_last) > spec_best_count(t) {
            assert(spec_count_delta(s, spec_delta(s[s.len() - 1])) == spec_best_count(s));
        } else {
            if t.len() > 0 {
                let w = choose|k: int|
                    0 <= k < t.len() && spec_count_delta(t, spec_delta(#[trigger] t[k]))
                        == spec_best_count(t);
                let d = spec_delta(t[w]);
                lemma_count_delta_step(s, d);
                if d == d_last {
                    assert(spec_count_delta(s, spec_delta(s[w])) >= spec_best_count(s));
                } else {
                    assert(spec_count_delta(s, spec_delta(s[w])) == spec_best_count(s));
                }
            }
        }
    }
}

proof fn lemma_count_delta_step(s: Seq<(u32, u32)>, d: int)
    requires
        s.len() > 0,
    ensures
        spec_count_delta(s, d) == spec_count_delta(s.drop_last(), d) + if spec_delta(s.last())
            == d {
            1nat
        } else {
            0nat
        },
{
}

proof fn lemma_count_delta_le_len(s: Seq<(u32, u32)>, d: int)
    ensures
        spec_count_delta(s, d) <= s.len(),
    decreases s.len(),
{
    if s.len() > 0 {
        lemma_count_delta_le_len(s.drop_last(), d);
    }
}

/// The histogram mode of one track's matches, computed as a running
/// maximum over incremental delta counts.
pub fn best_alignment_count(offsets: &Vec<(u32, u32)>) -> (best: u64)
    requires
        offsets@.len() <= u64::MAX,
    ensures
        best == spec_best_count(offsets@),
{
    let n: usize = offsets.len();
    let mut hist: HashMapWithView<i64, u64> = HashMapWithView::new();
    let mut best: u64 = 0;
    let mut k: usize = 0;
    while k < n
        invariant
            k <= n,
            n == offsets@.len(),
            n <= u64::MAX,
            best == spec_best_count(offsets@.take(k as int)),
            forall|d: i64|
                hist@.contains_key(d) <==> spec_count_delta(offsets@.take(k as int), d as int) > 0,
            forall|d: i64|
                #[trigger] hist@.contains_key(d) ==> hist@[d] == spec_count_delta(
                    offsets@.take(k as int),
                    d as int,
                ),
        decreases n - k,
    {
        let (doff, qoff): (u32, u32) = offsets[k];
        let d: i64 = doff as i64 - qoff as i64;
        proof {
            assert(offsets@.take(k as int + 1).drop_last() =~= offsets@.take(k as int));
            assert(offsets@.take(k as int + 1).last() == offsets@[k as int]);
            lemma_count_delta_le_len(offsets@.take(k as int), d as int);
        }
        let c: u64 = match hist.get(&d) {
            Some(cnt) => *cnt + 1,
            None => 1,
        };
        hist.insert(d, c);
        if c > best {
            best = c;
        }
        proof {
            assert forall|e: i64|
                hist@.contains_key(e) <==> spec_count_delta(
                    offsets@.take(k as int + 1),
                    e as int,
                ) > 0 by {
                lemma_count_delta_step(offsets@.take(k as int + 1), e as int);
            }
            assert forall|e: i64| #[trigger]
                hist@.contains_key(e) implies hist@[e] == spec_count_delta(
                offsets@.take(k as int + 1),
                e as int,
            ) by {
                lemma_count_delta_step(offsets@.take(k as int + 1), e as int);
            }
        }
        k = k + 1;
    }
    proof {
        assert(offsets@.take(n as int) =~= offsets@);
    }
    best
}

proof fn lemma_flat_ids(db: Database, q: Seq<(u32, u32)>)
    requires
        db.wf(),
    ensures
        forall|k: int|
            0 <= k < flat_matches(db, q).len() ==> db.spec_has_id(
                (#[trigger] flat_matches(db, q)[k]).0,
            ),
    decreases q.len(),
{
    if q.len() == 0 {
    } else {
        lemma_flat_ids(db, q.drop_last());
        let a = flat_matches(db, q.drop_last());
        let b = row_matches(db, q.last());
        let whole = a + b;
        assert forall|k: int| 0 <= k < whole.len() implies db.spec_has_id(
            (#[trigger] whole[k]).0,
        ) by {
            if k < a.len() {
                assert(whole[k] == a[k]);
            } else {
                assert(whole[k] == b[k - a.len()]);
                crate::storage::lemma_wf_postings_have_ids(db, q.last().0, k - a.len());
                let p = db.spec_postings(q.last().0)[k - a.len()];
                assert(whole[k].0 == p.0);
            }
        }
    }
}

proof fn lemma_group_insert_ids(
    db: Database,
    groups: Seq<(i64, Seq<(u32, u32)>)>,
    id: i64,
    pair: (u32, u32),
)
    requires
        db.spec_has_id(id),
        forall|k: int| 0 <= k < groups.len() ==> db.spec_has_id((#[trigger] groups[k]).0),
    ensures
        forall|k: int|
            0 <= k < group_insert(groups, id, pair).len() ==> db.spec_has_id(
                (#[trigger] group_insert(groups, id, pair)[k]).0,
            ),
    decreases groups.len(),
{
    let r = group_insert(groups, id, pair);
    if groups.len() == 0 {
        assert(r[0].0 == id);
    } else if groups[0].0 == id {
        assert forall|k: int| 0 <= k < r.len() implies db.spec_has_id((#[trigger] r[k]).0) by {
            if k == 0 {
            } else {
                assert(r[k] == groups[k]);
            }
        }
    } else {
        assert forall|j: int|
            0 <= j < groups.skip(1).len() implies db.spec_has_id(
            (#[trigger] groups.skip(1)[j]).0,
        ) by {
            assert(groups.skip(1)[j] == groups[j + 1]);
        }
        lemma_group_insert_ids(db, groups.skip(1), id, pair);
        assert forall|k: int| 0 <= k < r.len() implies db.spec_has_id((#[trigger] r[k]).0) by {
            if k == 0 {
            } else {
                assert(r[k] == group_insert(groups.skip(1), id, pair)[k - 1]);
            }
        }
    }
}

proof fn lemma_group_flat_ids(db: Database, flat: Seq<(i64, u32, u32)>)
    requires
        forall|k: int| 0 <= k < flat.len() ==> db.spec_has_id((#[trigger] flat[k]).0),
    ensures
        forall|k: int|
            0 <= k < group_flat(flat).len() ==> db.spec_has_id((#[trigger] group_flat(flat)[k]).0),
    decreases flat.len(),
{
    if flat.len() == 0 {
    } else {
        assert forall|k: int|
            0 <= k < flat.drop_last().len() implies db.spec_has_id(
            (#[trigger] flat.drop_last()[k]).0,
        ) by {
            assert(flat.drop_last()[k] == flat[k]);
        }
        lemma_group_flat_ids(db, flat.drop_last());
        assert(db.spec_has_id(flat.last().0));
        lemma_group_insert_ids(
            db,
            group_flat(flat.drop_last()),
            flat.last().0,
            (flat.last().1, flat.last().2),
        );
    }
}

proof fn lemma_best_track_key(groups: Seq<(i64, Seq<(u32, u32)>)>)
    requires
        spec_best_track(groups).1 > 0,
    ensures
        exists|k: int|
            0 <= k < groups.len() && (#[trigger] groups[k]).0 == spec_best_track(groups).0,
    decreases groups.len(),
{
    if groups.len() == 0 {
    } else {
        let prev = spec_best_track(groups.drop_last());
        let c = spec_best_count(groups.last().1);
        if c > prev.1 {
            assert(groups[groups.len() - 1].0 == spec_best_track(groups).0);
        } else {
            lemma_best_track_key(groups.drop_last());
            let w = choose|k: int|
                0 <= k < groups.drop_last().len() && (#[trigger] groups.drop_last()[k]).0 == prev.0;
            assert(groups[w].0 == prev.0);
        }
    }
}

/// A winning track with a positive aligned count is stored in the catalog:
/// postings only ever refer to stored tracks, and so does the match.
pub proof fn lemma_best_match_has_track(db: Database, q: Seq<(u32, u32)>)
    requires
        db.wf(),
        spec_best_match(db, q).1 > 0,
    ensures
        db.spec_has_id(spec_best_match(db, q).0),
{
    lemma_flat_ids(db, q);
    lemma_group_flat_ids(db, flat_matches(db, q));
    lemma_best_track_key(spec_lookup(db, q));
}

/// The match decision for a query against the catalog: group the posting
/// matches by track, take each
/// track's histogram mode, keep the best track, and report it with its
/// aligned count when the count is strictly above `MATCH_THRESHOLD`.
/// The caller maps the count to a confidence score.
pub fn find_best_match(db: &Database, query_hashes: &Vec<(u32, u32)>) -> (r: Option<
    (SongMetadata, u64),
>)
    requires
        db.wf(),
    ensures
        ({
            let best = spec_best_match(*db, query_hashes@);
            match r {
                Some(p) => {
                    &&& best.1 > MATCH_THRESHOLD
                    &&& p.1 == best.1
                    &&& p.0.id == best.0
                    &&& exists|i: int|
                        0 <= i < db.songs_seq().len() && #[trigger] db.songs_seq()[i] == p.0
                },
                None => best.1 <= MATCH_THRESHOLD,
            }
        }),
{
    let groups: Vec<(i64, Vec<(u32, u32)>)> = db.find_matches(query_hashes);
    let ghost gv = groups_view(groups@);
    let ng: usize = groups.len();
    let mut best_id: i64 = -1;
    let mut best_c: u64 = 0;
    let mut k: usize = 0;
    while k < ng
        invariant
            k <= ng,
            ng == groups@.len(),
            gv == groups_view(groups@),
            best_id == spec_best_track(gv.take(k as int)).0,
            best_c == spec_best_track(gv.take(k as int)).1,
        decreases ng - k,
    {
        let gref: &(i64, Vec<(u32, u32)>) = &groups[k];
        proof {
            assert(gref.1.len() == gref.1@.len());
            assert(gv.take(k as int + 1).drop_last() =~= gv.take(k as int));
            assert(gv.take(k as int + 1).last() == gv[k as int]);
            assert(gv[k as int] == (groups@[k as int].0, groups@[k as int].1@));
        }
        let c: u64 = best_alignment_count(&gref.1);
        if c > best_c {
            best_c = c;
            best_id = gref.0;
        }
        k = k + 1;
    }
    proof {
        assert(gv.take(ng as int) =~= gv);
    }
    if best_c > MATCH_THRESHOLD {
        proof {
            lemma_best_match_has_track(*db, query_hashes@);
        }
        match db.get_song_metadata(best_id) {
            Some(m) => Some((m, best_c)),
            None => {
                proof {
                    assert(false);
                }
                None
            },
        }
    } else {
        None
    }
}

/// A query with no hashes never matches, whatever the catalog holds.
pub proof fn lemma_empty_query_no_match(db: Database)
    ensures
        spec_best_match(db, Seq::<(u32, u32)>::empty()) == (-1i64, 0nat),
{
}

/// The matcher is deterministic: two catalogs holding the same tracks and
/// the same postings give every query the same match decision.
pub proof fn lemma_match_deterministic(db1: Database, db2: Database, q: Seq<(u32, u32)>)
    requires
        db1.songs_seq() == db2.songs_seq(),
        forall|h: u32| db1.spec_postings(h) == db2.spec_postings(h),
    ensures
        spec_best_match(db1, q) == spec_best_match(db2, q),
{
    lemma_flat_matches_congruent(db1, db2, q);
}

proof fn lemma_flat_matches_congruent(db1: Database, db2: Database, q: Seq<(u32, u32)>)
    requires
        forall|h: u32| db1.spec_postings(h) == db2.spec_postings(h),
    ensures
        flat_matches(db1, q) == flat_matches(db2, q),
    decreases q.len(),
{
    if q.len() == 0 {
    } else {
        lemma_flat_matches_congruent(db1, db2, q.drop_last());
    }
}

/// Against an empty index - after `clear_database`, or before any insert -
/// every lookup is empty and every query ends in no match: the winning
/// count is zero, below any threshold.
pub proof fn lemma_cleared_no_match(db: Database, q: Seq<(u32, u32)>)
    requires
        forall|h: u32| db.spec_postings(h) == Seq::<(i64, u32)>::empty(),
    ensures
        spec_lookup(db, q) == Seq::<(i64, Seq<(u32, u32)>)>::empty(),
        spec_best_match(db, q) == (-1i64, 0nat),
{
    lemma_flat_matches_empty(db, q);
}

proof fn lemma_flat_matches_empty(db: Database, q: Seq<(u32, u32)>)
    requires
        forall|h: u32| db.spec_postings(h) == Seq::<(i64, u32)>::empty(),
    ensures
        flat_matches(db, q) == Seq::<(i64, u32, u32)>::empty(),
    decreases q.len(),
{
    if q.len() == 0 {
    } else {
        lemma_flat_matches_empty(db, q.drop_last());
        assert(row_matches(db, q.last()) =~= Seq::<(i64, u32, u32)>::empty());
        assert(flat_matches(db, q.drop_last()) + row_matches(db, q.last()) =~= Seq::<
            (i64, u32, u32),
        >::empty());
    }
}

} // verus!
