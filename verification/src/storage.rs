//! The fingerprint index: track metadata and an inverted map from 32-bit
//! landmark hash to postings of `(track_id, offset)`.
//!
//! The catalog is an in-memory structure; a relational store that persists
//! it is a collaborator outside this crate and carries the same content.
//! Writes require exclusive access (`&mut self`); wrapping the catalog for
//! concurrent readers is the caller's concern.

use crate::types::{SongMetadata, StorageError};
use vstd::hash_map::HashMapWithView;
use vstd::prelude::*;

verus! {

broadcast use vstd::std_specs::hash::group_hash_axioms;

/// The postings one inserted track adds under hash `h`: one `(id, offset)`
/// entry per fingerprint `(h, offset)`, in fingerprint order.
pub open spec fn added_postings(fps: Seq<(u32, u32)>, h: u32, id: i64) -> Seq<(i64, u32)>
    decreases fps.len(),
{
    if fps.len() == 0 {
        Seq::empty()
    } else {
        let rest = added_postings(fps.drop_last(), h, id);
        if fps.last().0 == h {
            rest.push((id, fps.last().1))
        } else {
            rest
        }
    }
}

/// The inverted fingerprint index with its track metadata. Tracks are held
/// in insertion order; postings are keyed by landmark hash.
pub struct Database {
    songs: Vec<SongMetadata>,
    postings: HashMapWithView<u32, Vec<(i64, u32)>>,
    next_id: i64,
}

impl Database {
    /// The tracks, in insertion order.
    pub closed spec fn songs_seq(&self) -> Seq<SongMetadata> {
        self.songs@
    }

    /// The postings stored under hash `h`, in insertion order; empty when
    /// the hash was never stored.
    pub closed spec fn spec_postings(&self, h: u32) -> Seq<(i64, u32)> {
        if self.postings@.contains_key(h) {
            self.postings@[h]@
        } else {
            Seq::empty()
        }
    }

    /// The id the next inserted track receives.
    pub closed spec fn spec_next_id(&self) -> i64 {
        self.next_id
    }

    /// Some track carries id `id`.
    pub open spec fn spec_has_id(&self, id: i64) -> bool {
        exists|i: int|
            0 <= i < self.songs_seq().len() && (#[trigger] self.songs_seq()[i]).id == id
    }

    /// Some track carries source key `path`.
    pub open spec fn spec_has_path(&self, path: Seq<char>) -> bool {
        exists|i: int|
            0 <= i < self.songs_seq().len() && (#[trigger] self.songs_seq()[i]).path@ == path
    }

    /// Well-formedness: ids are at least 1, strictly increasing in insertion
    /// order and below `next_id`, and every posting refers to a stored
    /// track.
    pub closed spec fn wf(&self) -> bool {
        &&& 1 <= self.next_id
        &&& forall|i: int|
            0 <= i < self.songs@.len() ==> 1 <= (#[trigger] self.songs@[i]).id < self.next_id
        &&& forall|i: int, j: int|
            0 <= i < j < self.songs@.len() ==> self.songs@[i].id < self.songs@[j].id
        &&& forall|h: u32, k: int|
            0 <= k < self.spec_postings(h).len() ==> self.spec_has_id(
                (#[trigger] self.spec_postings(h)[k]).0,
            )
    }

    /// The id the next inserted track will receive.
    pub fn next_id(&self) -> (id: i64)
        ensures
            id == self.spec_next_id(),
    {
        self.next_id
    }

    /// An empty catalog; ids start at 1.
    pub fn new() -> (db: Database)
        ensures
            db.wf(),
            db.songs_seq() == Seq::<SongMetadata>::empty(),
            forall|h: u32| db.spec_postings(h) == Seq::<(i64, u32)>::empty(),
            db.spec_next_id() == 1,
    {
        Database { songs: Vec::new(), postings: HashMapWithView::new(), next_id: 1 }
    }

    /// Whether a track with source key `path` is already stored.
    pub fn song_exists_by_path(&self, path: &str) -> (r: bool)
        ensures
            r == self.spec_has_path(path@),
    {
        let key: String = path.to_owned();
        let n: usize = self.songs.len();
        let mut i: usize = 0;
        while i < n
            invariant
                i <= n,
                n == self.songs@.len(),
                key@ == path@,
                forall|j: int| 0 <= j < i ==> (#[trigger] self.songs@[j]).path@ != path@,
            decreases n - i,
        {
            if self.songs[i].path == key {
                proof {
                    assert((self.songs_seq()[i as int]).path@ == path@);
                }
                return true;
            }
            i = i + 1;
        }
        false
    }

    /// Inserts a track and its fingerprints atomically. Fails with
    /// `DuplicateKey`, changing nothing, when the source key is already
    /// stored; otherwise the track receives the next id and every
    /// fingerprint `(h, offset)` is appended to the postings of `h` as
    /// `(id, offset)`.
    pub fn insert_song(
        &mut self,
        title: &str,
        artist: &str,
        path: &str,
        created_at: &str,
        fingerprints: &Vec<(u32, u32)>,
    ) -> (r: Result<i64, StorageError>)
        requires
            old(self).wf(),
            old(self).spec_next_id() < i64::MAX,
        ensures
            final(self).wf(),
            match r {
                Ok(id) => {
                    &&& !old(self).spec_has_path(path@)
                    &&& id == old(self).spec_next_id()
                    &&& final(self).spec_next_id() == id + 1
                    &&& final(self).songs_seq().len() == old(self).songs_seq().len() + 1
                    &&& final(self).songs_seq().drop_last() == old(self).songs_seq()
                    &&& final(self).songs_seq().last().id == id
                    &&& final(self).songs_seq().last().title@ == title@
                    &&& final(self).songs_seq().last().artist@ == artist@
                    &&& final(self).songs_seq().last().path@ == path@
                    &&& final(self).songs_seq().last().created_at@ == created_at@
                    &&& forall|h: u32|
                        final(self).spec_postings(h) == old(self).spec_postings(h)
                            + added_postings(fingerprints@, h, id)
                },
                Err(e) => {
                    &&& e == StorageError::DuplicateKey
                    &&& old(self).spec_has_path(path@)
                    &&& *final(self) == *old(self)
                },
            },
    {
        if self.song_exists_by_path(path) {
            return Err(StorageError::DuplicateKey);
        }
        let ghost old_self = *self;
        let id: i64 = self.next_id;
        self.next_id = id + 1;
        let meta = SongMetadata {
            id,
            title: title.to_owned(),
            artist: artist.to_owned(),
            path: path.to_owned(),
            created_at: created_at.to_owned(),
        };
        self.songs.push(meta);
        proof {
            assert(self.songs@.drop_last() =~= old_self.songs@);
            assert(self.songs_seq()[self.songs@.len() - 1].id == id);
            assert forall|h: u32, k: int|
                0 <= k < self.spec_postings(h).len() implies self.spec_has_id(
                (#[trigger] self.spec_postings(h)[k]).0,
            ) by {
                assert(self.spec_postings(h) == old_self.spec_postings(h));
                assert(old_self.spec_has_id(old_self.spec_postings(h)[k].0));
                let w = choose|w: int|
                    0 <= w < old_self.songs_seq().len() && (#[trigger] old_self.songs_seq()[w]).id
                        == old_self.spec_postings(h)[k].0;
                assert(self.songs_seq()[w].id == self.spec_postings(h)[k].0);
            }
        }
        let ghost mid_self = *self;
        let n: usize = fingerprints.len();
        let mut k: usize = 0;
        while k < n
            invariant
                k <= n,
                n == fingerprints@.len(),
                self.songs@ == mid_self.songs@,
                self.next_id == mid_self.next_id,
                mid_self.wf(),
                self.spec_has_id(id),
                forall|h: u32|
                    self.spec_postings(h) == mid_self.spec_postings(h) + added_postings(
                        fingerprints@.take(k as int),
                        h,
                        id,
                    ),
            decreases n - k,
        {
            let ghost pre = *self;
            let (h, off): (u32, u32) = fingerprints[k];
            let mut lst: Vec<(i64, u32)> = match self.postings.remove(&h) {
                Some(v) => v,
                None => Vec::new(),
            };
            lst.push((id, off));
            self.postings.insert(h, lst);
            proof {
                assert(fingerprints@.take(k as int + 1).drop_last() =~= fingerprints@.take(
                    k as int,
                ));
                assert(fingerprints@.take(k as int + 1).last() == fingerprints@[k as int]);
                assert(self.spec_postings(h) == pre.spec_postings(h).push((id, off)));
                assert forall|g: u32|
                    self.spec_postings(g) == mid_self.spec_postings(g) + added_postings(
                        fingerprints@.take(k as int + 1),
                        g,
                        id,
                    ) by {
                    assert(pre.spec_postings(g) == mid_self.spec_postings(g) + added_postings(
                        fingerprints@.take(k as int),
                        g,
                        id,
                    ));
                    if g == h {
                        assert(added_postings(fingerprints@.take(k as int + 1), g, id)
                            == added_postings(fingerprints@.take(k as int), g, id).push((id, off)));
                        assert(self.spec_postings(g) =~= mid_self.spec_postings(g)
                            + added_postings(fingerprints@.take(k as int + 1), g, id));
                    } else {
                        assert(self.spec_postings(g) == pre.spec_postings(g));
                        assert(added_postings(fingerprints@.take(k as int + 1), g, id)
                            == added_postings(fingerprints@.take(k as int), g, id));
                    }
                }
                assert(pre.spec_has_id(id));
                let w = choose|w: int|
                    0 <= w < pre.songs_seq().len() && (#[trigger] pre.songs_seq()[w]).id == id;
                assert(self.songs_seq()[w].id == id);
            }
            k = k + 1;
        }
        proof {
            assert(fingerprints@.take(n as int) =~= fingerprints@);
            assert forall|h: u32, j: int|
                0 <= j < self.spec_postings(h).len() implies self.spec_has_id(
                (#[trigger] self.spec_postings(h)[j]).0,
            ) by {
                lemma_added_postings_ids(fingerprints@, h, id);
                assert(self.spec_postings(h) == mid_self.spec_postings(h) + added_postings(
                    fingerprints@,
                    h,
                    id,
                ));
                if j < mid_self.spec_postings(h).len() {
                    assert(self.spec_postings(h)[j] == mid_self.spec_postings(h)[j]);
                    assert(mid_self.spec_has_id(mid_self.spec_postings(h)[j].0));
                    let w = choose|w: int|
                        0 <= w < mid_self.songs_seq().len() && (
                        #[trigger] mid_self.songs_seq()[w]).id == mid_self.spec_postings(h)[j].0;
                    assert(self.songs_seq()[w].id == self.spec_postings(h)[j].0);
                } else {
                    assert(self.spec_postings(h)[j] == added_postings(fingerprints@, h, id)[j
                        - mid_self.spec_postings(h).len()]);
                }
            }
        }
        Ok(id)
    }

    /// The tracks, newest first: the reverse of insertion order.
    pub fn get_all_songs(&self) -> (songs: Vec<SongMetadata>)
        ensures
            songs@ == self.songs_seq().reverse(),
    {
        let n: usize = self.songs.len();
        let mut songs: Vec<SongMetadata> = Vec::new();
        let mut i: usize = 0;
        while i < n
            invariant
                i <= n,
                n == self.songs@.len(),
                songs@.len() == i,
                forall|j: int| 0 <= j < i ==> songs@[j] == self.songs@[n - 1 - j],
            decreases n - i,
        {
            songs.push(self.songs[n - 1 - i].duplicate());
            i = i + 1;
        }
        proof {
            assert(songs@ =~= self.songs_seq().reverse());
        }
        songs
    }

    /// The metadata of the track with id `song_id`, if it is stored.
    pub fn get_song_metadata(&self, song_id: i64) -> (r: Option<SongMetadata>)
        ensures
            match r {
                Some(m) => m.id == song_id && exists|i: int|
                    0 <= i < self.songs_seq().len() && #[trigger] self.songs_seq()[i] == m,
                None => !self.spec_has_id(song_id),
            },
    {
        let n: usize = self.songs.len();
        let mut i: usize = 0;
        while i < n
            invariant
                i <= n,
                n == self.songs@.len(),
                forall|j: int| 0 <= j < i ==> (#[trigger] self.songs@[j]).id != song_id,
            decreases n - i,
        {
            if self.songs[i].id == song_id {
                let m: SongMetadata = self.songs[i].duplicate();
                proof {
                    assert(self.songs_seq()[i as int] == m);
                }
                return Some(m);
            }
            i = i + 1;
        }
        None
    }

    /// Removes every track and every posting; the next id is not reused.
    pub fn clear_database(&mut self)
        requires
            old(self).wf(),
        ensures
            final(self).wf(),
            final(self).songs_seq() == Seq::<SongMetadata>::empty(),
            forall|h: u32| final(self).spec_postings(h) == Seq::<(i64, u32)>::empty(),
            final(self).spec_next_id() == old(self).spec_next_id(),
    {
        self.songs = Vec::new();
        self.postings = HashMapWithView::new();
    }
}

/// The matches one query pair `(h, qoff)` contributes: every posting stored
/// under `h`, tagged with the query offset, in posting order.
pub open spec fn row_matches(db: Database, q: (u32, u32)) -> Seq<(i64, u32, u32)> {
    db.spec_postings(q.0).map_values(|p: (i64, u32)| (p.0, p.1, q.1))
}

/// The matches of a whole query, query pair by query pair: a flat list of
/// `(track_id, db_offset, query_offset)` triples.
pub open spec fn flat_matches(db: Database, q: Seq<(u32, u32)>) -> Seq<(i64, u32, u32)>
    decreases q.len(),
{
    if q.len() == 0 {
        Seq::empty()
    } else {
        flat_matches(db, q.drop_last()) + row_matches(db, q.last())
    }
}

/// Files one match under its track: appended to the first group carrying
/// the track id, or opening a new group at the end.
pub open spec fn group_insert(
    groups: Seq<(i64, Seq<(u32, u32)>)>,
    id: i64,
    pair: (u32, u32),
) -> Seq<(i64, Seq<(u32, u32)>)>
    decreases groups.len(),
{
    if groups.len() == 0 {
        seq![(id, seq![pair])]
    } else if groups[0].0 == id {
        seq![(groups[0].0, groups[0].1.push(pair))] + groups.skip(1)
    } else {
        seq![groups[0]] + group_insert(groups.skip(1), id, pair)
    }
}

/// Groups a flat match list by track id; groups appear in the order the
/// tracks are first seen, and each group's pairs keep match order.
pub open spec fn group_flat(flat: Seq<(i64, u32, u32)>) -> Seq<(i64, Seq<(u32, u32)>)>
    decreases flat.len(),
{
    if flat.len() == 0 {
        Seq::empty()
    } else {
        group_insert(group_flat(flat.drop_last()), flat.last().0, (flat.last().1, flat.last().2))
    }
}

/// What a lookup returns: the query's matches grouped by track.
pub open spec fn spec_lookup(db: Database, q: Seq<(u32, u32)>) -> Seq<(i64, Seq<(u32, u32)>)> {
    group_flat(flat_matches(db, q))
}

/// The abstract value of an executable group list.
pub open spec fn groups_view(v: Seq<(i64, Vec<(u32, u32)>)>) -> Seq<(i64, Seq<(u32, u32)>)> {
    Seq::new(v.len(), |k: int| ((v[k].0, v[k].1@)))
}

proof fn lemma_group_insert_found(
    groups: Seq<(i64, Seq<(u32, u32)>)>,
    id: i64,
    pair: (u32, u32),
    k: int,
)
    requires
        0 <= k < groups.len(),
        groups[k].0 == id,
        forall|j: int| 0 <= j < k ==> (#[trigger] groups[j]).0 != id,
    ensures
        group_insert(groups, id, pair) == groups.update(k, (id, groups[k].1.push(pair))),
    decreases groups.len(),
{
    if k == 0 {
        assert(group_insert(groups, id, pair) =~= groups.update(0, (id, groups[0].1.push(pair))));
    } else {
        assert(groups[0].0 != id);
        assert forall|j: int| 0 <= j < k - 1 implies (#[trigger] groups.skip(1)[j]).0 != id by {
            assert(groups.skip(1)[j] == groups[j + 1]);
        }
        assert(groups.skip(1)[k - 1] == groups[k]);
        lemma_group_insert_found(groups.skip(1), id, pair, k - 1);
        assert(seq![groups[0]] + groups.skip(1).update(k - 1, (id, groups[k].1.push(pair)))
            =~= groups.update(k, (id, groups[k].1.push(pair))));
    }
}

proof fn lemma_group_insert_absent(groups: Seq<(i64, Seq<(u32, u32)>)>, id: i64, pair: (u32, u32))
    requires
        forall|j: int| 0 <= j < groups.len() ==> (#[trigger] groups[j]).0 != id,
    ensures
        group_insert(groups, id, pair) == groups.push((id, seq![pair])),
    decreases groups.len(),
{
    if groups.len() == 0 {
        assert(group_insert(groups, id, pair) =~= groups.push((id, seq![pair])));
    } else {
        assert(groups[0].0 != id);
        assert forall|j: int|
            0 <= j < groups.skip(1).len() implies (#[trigger] groups.skip(1)[j]).0 != id by {
            assert(groups.skip(1)[j] == groups[j + 1]);
        }
        lemma_group_insert_absent(groups.skip(1), id, pair);
        assert(seq![groups[0]] + groups.skip(1).push((id, seq![pair])) =~= groups.push(
            (id, seq![pair]),
        ));
    }
}

/// No two groups carry the same track id.
pub open spec fn distinct_keys(groups: Seq<(i64, Seq<(u32, u32)>)>) -> bool {
    forall|i: int, j: int|
        0 <= i < j < groups.len() ==> (#[trigger] groups[i]).0 != (#[trigger] groups[j]).0
}

proof fn lemma_group_insert_keys(groups: Seq<(i64, Seq<(u32, u32)>)>, id: i64, pair: (u32, u32))
    ensures
        forall|k: int|
            0 <= k < group_insert(groups, id, pair).len() ==> ((#[trigger] group_insert(
                groups,
                id,
                pair,
            )[k]).0 == id || exists|j: int|
                0 <= j < groups.len() && (#[trigger] groups[j]).0 == group_insert(
                    groups,
                    id,
                    pair,
                )[k].0),
    decreases groups.len(),
{
    let r = group_insert(groups, id, pair);
    if groups.len() == 0 {
    } else if groups[0].0 == id {
        assert forall|k: int| 0 <= k < r.len() implies ((#[trigger] r[k]).0 == id || exists|j: int|
            0 <= j < groups.len() && (#[trigger] groups[j]).0 == r[k].0) by {
            if k > 0 {
                assert(r[k] == groups[k]);
                assert(groups[k].0 == r[k].0);
            }
        }
    } else {
        lemma_group_insert_keys(groups.skip(1), id, pair);
        let sub = group_insert(groups.skip(1), id, pair);
        assert forall|k: int| 0 <= k < r.len() implies ((#[trigger] r[k]).0 == id || exists|j: int|
            0 <= j < groups.len() && (#[trigger] groups[j]).0 == r[k].0) by {
            if k == 0 {
                assert(groups[0].0 == r[0].0);
            } else {
                assert(r[k] == sub[k - 1]);
                if sub[k - 1].0 != id {
                    let w = choose|w: int|
                        0 <= w < groups.skip(1).len() && (#[trigger] groups.skip(1)[w]).0 == sub[k
                            - 1].0;
                    assert(groups[w + 1].0 == r[k].0);
                }
            }
        }
    }
}

proof fn lemma_group_insert_distinct(groups: Seq<(i64, Seq<(u32, u32)>)>, id: i64, pair: (u32, u32))
    requires
        distinct_keys(groups),
    ensures
        distinct_keys(group_insert(groups, id, pair)),
    decreases groups.len(),
{
    let r = group_insert(groups, id, pair);
    if groups.len() == 0 {
    } else if groups[0].0 == id {
        assert forall|i: int, j: int| 0 <= i < j < r.len() implies (#[trigger] r[i]).0 != (
        #[trigger] r[j]).0 by {
            assert(r[i].0 == groups[i].0);
            assert(r[j].0 == groups[j].0);
        }
    } else {
        assert forall|i: int, j: int|
            0 <= i < j < groups.skip(1).len() implies (#[trigger] groups.skip(1)[i]).0 != (
        #[trigger] groups.skip(1)[j]).0 by {
            assert(groups.skip(1)[i] == groups[i + 1]);
            assert(groups.skip(1)[j] == groups[j + 1]);
        }
        lemma_group_insert_distinct(groups.skip(1), id, pair);
        lemma_group_insert_keys(groups.skip(1), id, pair);
        let sub = group_insert(groups.skip(1), id, pair);
        assert forall|i: int, j: int| 0 <= i < j < r.len() implies (#[trigger] r[i]).0 != (
        #[trigger] r[j]).0 by {
            if i == 0 {
                assert(r[j] == sub[j - 1]);
                if sub[j - 1].0 == id {
                } else {
                    let w = choose|w: int|
                        0 <= w < groups.skip(1).len() && (#[trigger] groups.skip(1)[w]).0 == sub[j
                            - 1].0;
                    assert(groups.skip(1)[w] == groups[w + 1]);
                    assert(groups[0].0 != groups[w + 1].0);
                }
            } else {
                assert(r[i] == sub[i - 1]);
                assert(r[j] == sub[j - 1]);
            }
        }
    }
}

/// A lookup really is a map over tracks: no two of its groups carry the
/// same track id.
pub proof fn lemma_lookup_keys_distinct(db: Database, q: Seq<(u32, u32)>)
    ensures
        distinct_keys(spec_lookup(db, q)),
{
    lemma_group_flat_distinct(flat_matches(db, q));
}

proof fn lemma_group_flat_distinct(flat: Seq<(i64, u32, u32)>)
    ensures
        distinct_keys(group_flat(flat)),
    decreases flat.len(),
{
    if flat.len() == 0 {
    } else {
        lemma_group_flat_distinct(flat.drop_last());
        lemma_group_insert_distinct(
            group_flat(flat.drop_last()),
            flat.last().0,
            (flat.last().1, flat.last().2),
        );
    }
}

impl Database {
    /// Looks every query hash up in the postings and groups the results by
    /// track: `(track_id, [(db_offset, query_offset)])`, tracks in
    /// first-seen order, pairs in match order.
    pub fn find_matches(&self, query_hashes: &Vec<(u32, u32)>) -> (matches: Vec<
        (i64, Vec<(u32, u32)>),
    >)
        ensures
            groups_view(matches@) == spec_lookup(*self, query_hashes@),
    {
        let nq: usize = query_hashes.len();
        let mut groups: Vec<(i64, Vec<(u32, u32)>)> = Vec::new();
        let mut qi: usize = 0;
        while qi < nq
            invariant
                qi <= nq,
                nq == query_hashes@.len(),
                groups_view(groups@) == group_flat(
                    flat_matches(*self, query_hashes@.take(qi as int)),
                ),
            decreases nq - qi,
        {
            let (h, qoff): (u32, u32) = query_hashes[qi];
            let ghost flat0 = flat_matches(*self, query_hashes@.take(qi as int));
            proof {
                assert(query_hashes@.take(qi as int + 1).drop_last() =~= query_hashes@.take(
                    qi as int,
                ));
                assert(query_hashes@.take(qi as int + 1).last() == query_hashes@[qi as int]);
            }
            match self.postings.get(&h) {
                Some(plist) => {
                    proof {
                        assert(plist@ == self.spec_postings(h));
                    }
                    let np: usize = plist.len();
                    let mut pj: usize = 0;
                    while pj < np
                        invariant
                            pj <= np,
                            np == plist@.len(),
                            plist@ == self.spec_postings(h),
                            groups_view(groups@) == group_flat(
                                flat0 + self.spec_postings(h).take(pj as int).map_values(
                                    |p: (i64, u32)| (p.0, p.1, qoff),
                                ),
                            ),
                        decreases np - pj,
                    {
                        let (sid, doff): (i64, u32) = plist[pj];
                        let ghost gflat = flat0 + self.spec_postings(h).take(pj as int).map_values(
                            |p: (i64, u32)| (p.0, p.1, qoff),
                        );
                        let ghost gflat1 = flat0 + self.spec_postings(h).take(
                            pj as int + 1,
                        ).map_values(|p: (i64, u32)| (p.0, p.1, qoff));
                        proof {
                            assert(gflat1.drop_last() =~= gflat);
                            assert(self.spec_postings(h).take(pj as int + 1)[pj as int]
                                == self.spec_postings(h)[pj as int]);
                            assert(gflat1.last() == (sid, doff, qoff));
                            assert(group_flat(gflat1) == group_insert(
                                group_flat(gflat),
                                sid,
                                (doff, qoff),
                            ));
                        }
                        let ng: usize = groups.len();
                        let mut gi: usize = 0;
                        while gi < ng && groups[gi].0 != sid
                            invariant
                                gi <= ng,
                                ng == groups@.len(),
                                forall|j: int| 0 <= j < gi ==> (#[trigger] groups@[j]).0 != sid,
                            decreases ng - gi,
                        {
                            gi = gi + 1;
                        }
                        if gi < ng {
                            let ghost gv = groups_view(groups@);
                            proof {
                                assert(gv[gi as int].0 == sid);
                                assert forall|j: int| 0 <= j < gi implies (#[trigger] gv[j]).0
                                    != sid by {
                                    assert(gv[j].0 == groups@[j].0);
                                }
                                lemma_group_insert_found(gv, sid, (doff, qoff), gi as int);
                            }
                            let (gid, mut gvec): (i64, Vec<(u32, u32)>) = groups.remove(gi);
                            gvec.push((doff, qoff));
                            groups.insert(gi, (gid, gvec));
                            proof {
                                assert(groups_view(groups@) =~= gv.update(
                                    gi as int,
                                    (sid, gv[gi as int].1.push((doff, qoff))),
                                ));
                            }
                        } else {
                            let ghost gv = groups_view(groups@);
                            proof {
                                assert forall|j: int| 0 <= j < gv.len() implies (#[trigger] gv[j]).0
                                    != sid by {
                                    assert(gv[j].0 == groups@[j].0);
                                }
                                lemma_group_insert_absent(gv, sid, (doff, qoff));
                            }
                            let mut gvec: Vec<(u32, u32)> = Vec::new();
                            gvec.push((doff, qoff));
                            groups.push((sid, gvec));
                            proof {
                                assert(groups_view(groups@) =~= gv.push((sid, seq![(doff, qoff)])));
                            }
                        }
                        pj = pj + 1;
                    }
                    proof {
                        assert(self.spec_postings(h).take(np as int) =~= self.spec_postings(h));
                        assert(flat0 + row_matches(*self, (h, qoff)) == flat_matches(
                            *self,
                            query_hashes@.take(qi as int + 1),
                        ));
                    }
                },
                None => {
                    proof {
                        assert(self.spec_postings(h) == Seq::<(i64, u32)>::empty());
                        assert(row_matches(*self, (h, qoff)) =~= Seq::<(i64, u32, u32)>::empty());
                        assert(flat0 + row_matches(*self, (h, qoff)) =~= flat0);
                    }
                },
            }
            qi = qi + 1;
        }
        proof {
            assert(query_hashes@.take(nq as int) =~= query_hashes@);
        }
        groups
    }
}

/// Referential integrity, exported from well-formedness: every stored
/// posting refers to a stored track.
pub proof fn lemma_wf_postings_have_ids(db: Database, h: u32, k: int)
    requires
        db.wf(),
        0 <= k < db.spec_postings(h).len(),
    ensures
        db.spec_has_id(db.spec_postings(h)[k].0),
{
}

proof fn lemma_added_postings_ids(fps: Seq<(u32, u32)>, h: u32, id: i64)
    ensures
        forall|k: int|
            0 <= k < added_postings(fps, h, id).len() ==> (#[trigger] added_postings(
                fps,
                h,
                id,
            )[k]).0 == id,
    decreases fps.len(),
{
    if fps.len() == 0 {
    } else {
        lemma_added_postings_ids(fps.drop_last(), h, id);
        let prev = added_postings(fps.drop_last(), h, id);
        let cur = added_postings(fps, h, id);
        assert forall|k: int| 0 <= k < cur.len() implies (#[trigger] cur[k]).0 == id by {
            if k < prev.len() {
                assert(cur[k] == prev[k]);
            }
        }
    }
}

} // verus!
