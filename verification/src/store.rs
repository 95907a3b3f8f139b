//! An in-memory model of the relational entity store: one table per entity,
//! with store-assigned, strictly increasing identifiers per table.
//!
//! Every row ever stored gets the table's next identifier, so each table is
//! kept sorted by `id` — which is exactly the order the listing operations
//! owe their callers (tracks are additionally offered sorted by position).
//! Updates replace every mutable field of the row with the given id and
//! report `NotFound` when no row has it.

use vstd::prelude::*;

use crate::articles::{lemma_lex_le_antisymmetric, lemma_lex_le_total, lemma_lex_le_transitive,
    lex_le};
use crate::models::{Album, Artist, Batch, Entrega, NewAlbum, NewBatch, NewEntrega, NewTrack,
    StoreError, Track};

verus! {

/// Inserting an element anywhere adds exactly it to the sequence's
/// multiset.
pub proof fn lemma_insert_to_multiset<A>(s: Seq<A>, j: int, x: A)
    requires
        0 <= j <= s.len(),
    ensures
        s.insert(j, x).to_multiset() == s.to_multiset().insert(x),
{
    broadcast use vstd::seq_lib::group_to_multiset_ensures;
    broadcast use vstd::multiset::group_multiset_axioms;

    let s2 = s.insert(j, x);
    s.insert_ensures(j, x);
    assert(s2.remove(j) =~= s);
    assert(s2[j] == x);
    assert(s.to_multiset() =~= s2.to_multiset().remove(x));
    assert(s2.contains(x));
    assert(s2.to_multiset().count(x) > 0);
    assert(s2.to_multiset() =~= s.to_multiset().insert(x));
}

/// Position labels ordered with absent labels first, then lexicographic:
/// strictly before.
pub open spec fn pos_lt(a: Option<String>, b: Option<String>) -> bool {
    match (a, b) {
        (None, Some(_)) => true,
        (Some(x), Some(y)) => lex_le(x@, y@) && x@ != y@,
        _ => false,
    }
}

/// The two position labels read the same.
pub open spec fn pos_eq(a: Option<String>, b: Option<String>) -> bool {
    match (a, b) {
        (None, None) => true,
        (Some(x), Some(y)) => x@ == y@,
        _ => false,
    }
}

/// The track listing order: by position label, ties broken by id.
pub open spec fn track_le(a: Track, b: Track) -> bool {
    pos_lt(a.position, b.position) || (pos_eq(a.position, b.position) && a.id <= b.id)
}

/// The tracks stand in listing order.
pub open spec fn sorted_tracks(s: Seq<Track>) -> bool {
    forall|i: int, j: int| 0 <= i < j < s.len() ==> track_le(#[trigger] s[i], #[trigger] s[j])
}

/// Any two tracks compare one way or the other in the listing order.
proof fn lemma_track_le_total(a: Track, b: Track)
    ensures
        track_le(a, b) || track_le(b, a),
{
    match (a.position, b.position) {
        (Some(x), Some(y)) => {
            lemma_lex_le_total(x@, y@);
        },
        _ => {},
    }
}

/// The listing order is transitive.
proof fn lemma_track_le_transitive(a: Track, b: Track, c: Track)
    requires
        track_le(a, b),
        track_le(b, c),
    ensures
        track_le(a, c),
{
    match (a.position, b.position, c.position) {
        (Some(x), Some(y), Some(z)) => {
            if pos_lt(a.position, b.position) && pos_lt(b.position, c.position) {
                lemma_lex_le_transitive(x@, y@, z@);
                if x@ == z@ {
                    lemma_lex_le_antisymmetric(y@, z@);
                }
            }
        },
        _ => {},
    }
}

/// Table well-formedness: ids strictly increase along the table and stay
/// below the table's next free id, which is positive.
pub open spec fn wf_artists(rows: Seq<Artist>, next: i64) -> bool {
    &&& 1 <= next
    &&& forall|i: int| 0 <= i < rows.len() ==> 0 < #[trigger] rows[i].id < next
    &&& forall|i: int, j: int|
        0 <= i < j < rows.len() ==> #[trigger] rows[i].id < #[trigger] rows[j].id
}

pub open spec fn wf_albums(rows: Seq<Album>, next: i64) -> bool {
    &&& 1 <= next
    &&& forall|i: int| 0 <= i < rows.len() ==> 0 < #[trigger] rows[i].id < next
    &&& forall|i: int, j: int|
        0 <= i < j < rows.len() ==> #[trigger] rows[i].id < #[trigger] rows[j].id
}

pub open spec fn wf_tracks(rows: Seq<Track>, next: i64) -> bool {
    &&& 1 <= next
    &&& forall|i: int| 0 <= i < rows.len() ==> 0 < #[trigger] rows[i].id < next
    &&& forall|i: int, j: int|
        0 <= i < j < rows.len() ==> #[trigger] rows[i].id < #[trigger] rows[j].id
}

pub open spec fn wf_batches(rows: Seq<Batch>, next: i64) -> bool {
    &&& 1 <= next
    &&& forall|i: int| 0 <= i < rows.len() ==> 0 < #[trigger] rows[i].id < next
    &&& forall|i: int, j: int|
        0 <= i < j < rows.len() ==> #[trigger] rows[i].id < #[trigger] rows[j].id
}

pub open spec fn wf_entregas(rows: Seq<Entrega>, next: i64) -> bool {
    &&& 1 <= next
    &&& forall|i: int| 0 <= i < rows.len() ==> 0 < #[trigger] rows[i].id < next
    &&& forall|i: int, j: int|
        0 <= i < j < rows.len() ==> #[trigger] rows[i].id < #[trigger] rows[j].id
}

/// The first index whose row carries the given id, if any. Under the store
/// invariant ids are unique, so "first" is "the" index.
pub open spec fn find_album(rows: Seq<Album>, id: i64) -> Option<int>
    decreases rows.len(),
{
    if rows.len() == 0 {
        None
    } else if rows[0].id == id {
        Some(0)
    } else {
        match find_album(rows.drop_first(), id) {
            Some(i) => Some(i + 1),
            None => None,
        }
    }
}

pub open spec fn find_track(rows: Seq<Track>, id: i64) -> Option<int>
    decreases rows.len(),
{
    if rows.len() == 0 {
        None
    } else if rows[0].id == id {
        Some(0)
    } else {
        match find_track(rows.drop_first(), id) {
            Some(i) => Some(i + 1),
            None => None,
        }
    }
}

pub open spec fn find_batch(rows: Seq<Batch>, id: i64) -> Option<int>
    decreases rows.len(),
{
    if rows.len() == 0 {
        None
    } else if rows[0].id == id {
        Some(0)
    } else {
        match find_batch(rows.drop_first(), id) {
            Some(i) => Some(i + 1),
            None => None,
        }
    }
}

pub open spec fn find_entrega(rows: Seq<Entrega>, id: i64) -> Option<int>
    decreases rows.len(),
{
    if rows.len() == 0 {
        None
    } else if rows[0].id == id {
        Some(0)
    } else {
        match find_entrega(rows.drop_first(), id) {
            Some(i) => Some(i + 1),
            None => None,
        }
    }
}

/// The whole catalog store: five tables and their next free identifiers.
pub struct Store {
    pub artists: Vec<Artist>,
    pub albums: Vec<Album>,
    pub tracks: Vec<Track>,
    pub batches: Vec<Batch>,
    pub entregas: Vec<Entrega>,
    pub next_artist_id: i64,
    pub next_album_id: i64,
    pub next_track_id: i64,
    pub next_batch_id: i64,
    pub next_entrega_id: i64,
}

/// The artist table (rows and counter) is the same in both stores.
pub open spec fn artists_same(a: Store, b: Store) -> bool {
    a.artists@ == b.artists@ && a.next_artist_id == b.next_artist_id
}

/// The album table is the same in both stores.
pub open spec fn albums_same(a: Store, b: Store) -> bool {
    a.albums@ == b.albums@ && a.next_album_id == b.next_album_id
}

/// The track table is the same in both stores.
pub open spec fn tracks_same(a: Store, b: Store) -> bool {
    a.tracks@ == b.tracks@ && a.next_track_id == b.next_track_id
}

/// The batch table is the same in both stores.
pub open spec fn batches_same(a: Store, b: Store) -> bool {
    a.batches@ == b.batches@ && a.next_batch_id == b.next_batch_id
}

/// The entrega table is the same in both stores.
pub open spec fn entregas_same(a: Store, b: Store) -> bool {
    a.entregas@ == b.entregas@ && a.next_entrega_id == b.next_entrega_id
}

impl Store {
    /// Every table satisfies the id invariant.
    pub open spec fn wf(self) -> bool {
        &&& wf_artists(self.artists@, self.next_artist_id)
        &&& wf_albums(self.albums@, self.next_album_id)
        &&& wf_tracks(self.tracks@, self.next_track_id)
        &&& wf_batches(self.batches@, self.next_batch_id)
        &&& wf_entregas(self.entregas@, self.next_entrega_id)
    }

    /// An empty store, as the schema migration leaves it.
    pub fn new() -> (s: Store)
        ensures
            s.wf(),
            s.artists@ == Seq::<Artist>::empty(),
            s.albums@ == Seq::<Album>::empty(),
            s.tracks@ == Seq::<Track>::empty(),
            s.batches@ == Seq::<Batch>::empty(),
            s.entregas@ == Seq::<Entrega>::empty(),
            s.next_artist_id == 1 && s.next_album_id == 1 && s.next_track_id == 1
                && s.next_batch_id == 1 && s.next_entrega_id == 1,
    {
        Store {
            artists: Vec::new(),
            albums: Vec::new(),
            tracks: Vec::new(),
            batches: Vec::new(),
            entregas: Vec::new(),
            next_artist_id: 1,
            next_album_id: 1,
            next_track_id: 1,
            next_batch_id: 1,
            next_entrega_id: 1,
        }
    }

    /// All artists, ordered by id ascending (the invariant keeps the table
    /// in that order).
    pub fn list_artists(&self) -> (r: &Vec<Artist>)
        ensures
            r@ == self.artists@,
    {
        &self.artists
    }

    /// All albums, ordered by id ascending.
    pub fn list_albums(&self) -> (r: &Vec<Album>)
        ensures
            r@ == self.albums@,
    {
        &self.albums
    }

    /// All batches, ordered by id ascending.
    pub fn list_batches(&self) -> (r: &Vec<Batch>)
        ensures
            r@ == self.batches@,
    {
        &self.batches
    }

    /// All entregas, ordered by id ascending.
    pub fn list_entregas(&self) -> (r: &Vec<Entrega>)
        ensures
            r@ == self.entregas@,
    {
        &self.entregas
    }

    /// All tracks as a fresh listing, ordered by position label then id —
    /// the order the track surface serves.
    pub fn list_tracks(&self) -> (r: Vec<Track>)
        ensures
            sorted_tracks(r@),
            r@.to_multiset() == self.tracks@.to_multiset(),
    {
        broadcast use vstd::seq_lib::group_to_multiset_ensures;

        let mut out: Vec<Track> = Vec::new();
        let mut i: usize = 0;
        proof {
            assert(self.tracks@.take(0) =~= Seq::<Track>::empty());
            assert(self.tracks@.take(0).to_multiset() =~= out@.to_multiset());
        }
        while i < self.tracks.len()
            invariant
                i <= self.tracks@.len(),
                sorted_tracks(out@),
                out@.to_multiset() == self.tracks@.take(i as int).to_multiset(),
            decreases self.tracks@.len() - i,
        {
            let x = clone_track(&self.tracks[i]);
            let j = track_insertion_point(&out, &x);
            let ghost prev = out@;
            let ghost xv = x;
            out.insert(j, x);
            proof {
                broadcast use vstd::seq_lib::group_to_multiset_ensures;

                lemma_insert_to_multiset(prev, j as int, xv);
                assert(self.tracks@.take(i as int + 1).drop_last() =~= self.tracks@.take(
                    i as int,
                ));
                assert(self.tracks@.take(i as int + 1) =~= self.tracks@.take(i as int).push(
                    self.tracks@[i as int],
                ));
                assert(self.tracks@.take(i as int).push(self.tracks@[i as int]).to_multiset()
                    =~= self.tracks@.take(i as int).to_multiset().insert(
                    self.tracks@[i as int],
                ));
                assert(out@.to_multiset() == self.tracks@.take(i as int + 1).to_multiset());
                prev.insert_ensures(j as int, xv);
                assert forall|k1: int, k2: int| 0 <= k1 < k2 < out@.len() implies track_le(
                    #[trigger] out@[k1],
                    #[trigger] out@[k2],
                ) by {
                    if k2 < j {
                        assert(out@[k1] == prev[k1] && out@[k2] == prev[k2]);
                    } else if k2 == j {
                        assert(out@[k1] == prev[k1] && out@[k2] == xv);
                    } else if k1 < j {
                        assert(out@[k1] == prev[k1] && out@[k2] == prev[k2 - 1]);
                    } else if k1 == j {
                        assert(out@[k1] == xv && out@[k2] == prev[k2 - 1]);
                    } else {
                        assert(out@[k1] == prev[k1 - 1] && out@[k2] == prev[k2 - 1]);
                    }
                }
            }
            i = i + 1;
        }
        proof {
            assert(self.tracks@.take(i as int) =~= self.tracks@);
        }
        out
    }

    /// Insert an entrega row with the next free id; returns the stored row.
    pub fn create_entrega(&mut self, rec: &NewEntrega) -> (e: Entrega)
        requires
            old(self).wf(),
            old(self).next_entrega_id < i64::MAX,
        ensures
            final(self).wf(),
            e == (Entrega {
                id: old(self).next_entrega_id,
                name: rec.name,
                batch_id: rec.batch_id,
                created_at: rec.created_at,
            }),
            final(self).entregas@ == old(self).entregas@.push(e),
            final(self).next_entrega_id == old(self).next_entrega_id + 1,
            artists_same(*final(self), *old(self)),
            albums_same(*final(self), *old(self)),
            tracks_same(*final(self), *old(self)),
            batches_same(*final(self), *old(self)),
    {
        let row = Entrega {
            id: self.next_entrega_id,
            name: rec.name.clone(),
            batch_id: rec.batch_id,
            created_at: rec.created_at.clone(),
        };
        let out = Entrega {
            id: self.next_entrega_id,
            name: rec.name.clone(),
            batch_id: rec.batch_id,
            created_at: rec.created_at.clone(),
        };
        self.entregas.push(row);
        self.next_entrega_id = self.next_entrega_id + 1;
        out
    }

    /// Replace every mutable field of the entrega row with this id, or
    /// report `NotFound` and change nothing when no row has it.
    pub fn update_entrega(&mut self, id: i64, rec: &NewEntrega) -> (r: Result<Entrega, StoreError>)
        requires
            old(self).wf(),
        ensures
            final(self).wf(),
            match r {
                Ok(e) => {
                    &&& find_entrega(old(self).entregas@, id) matches Some(i)
                        && final(self).entregas@ == old(self).entregas@.update(i, e)
                    &&& e == (Entrega {
                        id: id,
                        name: rec.name,
                        batch_id: rec.batch_id,
                        created_at: rec.created_at,
                    })
                    &&& final(self).next_entrega_id == old(self).next_entrega_id
                    &&& artists_same(*final(self), *old(self))
                    &&& albums_same(*final(self), *old(self))
                    &&& tracks_same(*final(self), *old(self))
                    &&& batches_same(*final(self), *old(self))
                },
                Err(e) => {
                    &&& e matches StoreError::NotFound
                    &&& find_entrega(old(self).entregas@, id) is None
                    &&& *final(self) == *old(self)
                },
            },
    {
        let n = self.entregas.len();
        let mut i: usize = 0;
        while i < n
            invariant
                n == self.entregas.len(),
                i <= n,
                forall|k: int| 0 <= k < i ==> !(#[trigger] self.entregas@[k].id == id),
                *self == *old(self),
                old(self).wf(),
            decreases n - i,
        {
            if self.entregas[i].id == id {
                proof {
                    lemma_find_entrega_at(self.entregas@, id, i as int);
                }
                let row = Entrega {
                    id: id,
                    name: rec.name.clone(),
                    batch_id: rec.batch_id,
                    created_at: rec.created_at.clone(),
                };
                let out = Entrega {
                    id: id,
                    name: rec.name.clone(),
                    batch_id: rec.batch_id,
                    created_at: rec.created_at.clone(),
                };
                self.entregas[i] = row;
                proof {
                    let rows0 = old(self).entregas@;
                    let rows1 = self.entregas@;
                    assert(forall|k: int|
                        0 <= k < rows1.len() ==> #[trigger] rows1[k].id == rows0[k].id);
                }
                return Ok(out);
            }
            i = i + 1;
        }
        proof {
            lemma_find_entrega_advance(self.entregas@, id, n as int);
        }
        Err(StoreError::NotFound)
    }

    /// Insert an album row with the next free id; returns the stored row.
    pub fn create_album(&mut self, rec: &NewAlbum) -> (a: Album)
        requires
            old(self).wf(),
            old(self).next_album_id < i64::MAX,
        ensures
            final(self).wf(),
            a == (Album {
                id: old(self).next_album_id,
                title: rec.title,
                artist_id: rec.artist_id,
                release_year: rec.release_year,
                label: rec.label,
                format: rec.format,
                country: rec.country,
                genre: rec.genre,
                style: rec.style,
                created_at: rec.created_at,
            }),
            final(self).albums@ == old(self).albums@.push(a),
            final(self).next_album_id == old(self).next_album_id + 1,
            artists_same(*final(self), *old(self)),
            tracks_same(*final(self), *old(self)),
            batches_same(*final(self), *old(self)),
            entregas_same(*final(self), *old(self)),
    {
        let row = Album {
            id: self.next_album_id,
            title: rec.title.clone(),
            artist_id: rec.artist_id,
            release_year: rec.release_year,
            label: rec.label.clone(),
            format: rec.format.clone(),
            country: rec.country.clone(),
            genre: rec.genre.clone(),
            style: rec.style.clone(),
            created_at: rec.created_at.clone(),
        };
        let out = Album {
            id: self.next_album_id,
            title: rec.title.clone(),
            artist_id: rec.artist_id,
            release_year: rec.release_year,
            label: rec.label.clone(),
            format: rec.format.clone(),
            country: rec.country.clone(),
            genre: rec.genre.clone(),
            style: rec.style.clone(),
            created_at: rec.created_at.clone(),
        };
        self.albums.push(row);
        self.next_album_id = self.next_album_id + 1;
        out
    }

    /// Replace every mutable field of the album row with this id, or
    /// report `NotFound` and change nothing when no row has it.
    pub fn update_album(&mut self, id: i64, rec: &NewAlbum) -> (r: Result<Album, StoreError>)
        requires
            old(self).wf(),
        ensures
            final(self).wf(),
            match r {
                Ok(a) => {
                    &&& find_album(old(self).albums@, id) matches Some(i)
                        && final(self).albums@ == old(self).albums@.update(i, a)
                    &&& a == (Album {
                        id: id,
                        title: rec.title,
                        artist_id: rec.artist_id,
                        release_year: rec.release_year,
                        label: rec.label,
                        format: rec.format,
                        country: rec.country,
                        genre: rec.genre,
                        style: rec.style,
                        created_at: rec.created_at,
                    })
                    &&& final(self).next_album_id == old(self).next_album_id
                    &&& artists_same(*final(self), *old(self))
                    &&& tracks_same(*final(self), *old(self))
                    &&& batches_same(*final(self), *old(self))
                    &&& entregas_same(*final(self), *old(self))
                },
                Err(e) => {
                    &&& e matches StoreError::NotFound
                    &&& find_album(old(self).albums@, id) is None
                    &&& *final(self) == *old(self)
                },
            },
    {
        let n = self.albums.len();
        let mut i: usize = 0;
        while i < n
            invariant
                n == self.albums.len(),
                i <= n,
                forall|k: int| 0 <= k < i ==> !(#[trigger] self.albums@[k].id == id),
                *self == *old(self),
                old(self).wf(),
            decreases n - i,
        {
            if self.albums[i].id == id {
                proof {
                    lemma_find_album_at(self.albums@, id, i as int);
                }
                let row = Album {
                    id: id,
                    title: rec.title.clone(),
                    artist_id: rec.artist_id,
                    release_year: rec.release_year,
                    label: rec.label.clone(),
                    format: rec.format.clone(),
                    country: rec.country.clone(),
                    genre: rec.genre.clone(),
                    style: rec.style.clone(),
                    created_at: rec.created_at.clone(),
                };
                let out = Album {
                    id: id,
                    title: rec.title.clone(),
                    artist_id: rec.artist_id,
                    release_year: rec.release_year,
                    label: rec.label.clone(),
                    format: rec.format.clone(),
                    country: rec.country.clone(),
                    genre: rec.genre.clone(),
                    style: rec.style.clone(),
                    created_at: rec.created_at.clone(),
                };
                self.albums[i] = row;
                proof {
                    let rows0 = old(self).albums@;
                    let rows1 = self.albums@;
                    assert(forall|k: int|
                        0 <= k < rows1.len() ==> #[trigger] rows1[k].id == rows0[k].id);
                }
                return Ok(out);
            }
            i = i + 1;
        }
        proof {
            lemma_find_album_advance(self.albums@, id, n as int);
        }
        Err(StoreError::NotFound)
    }

    /// Insert a track row with the next free id; returns the stored row.
    /// On this surface `album_id` and `entrega_id` are real store
    /// identifiers, never payload positions.
    pub fn create_track(&mut self, rec: &NewTrack) -> (t: Track)
        requires
            old(self).wf(),
            old(self).next_track_id < i64::MAX,
        ensures
            final(self).wf(),
            t == (Track {
                id: old(self).next_track_id,
                title: rec.title,
                artist_name: rec.artist_name,
                album_id: rec.album_id,
                duration_seconds: rec.duration_seconds,
                bpm: rec.bpm,
                tone: rec.tone,
                position: rec.position,
                score: rec.score,
                entrega_id: rec.entrega_id,
                created_at: rec.created_at,
            }),
            final(self).tracks@ == old(self).tracks@.push(t),
            final(self).next_track_id == old(self).next_track_id + 1,
            artists_same(*final(self), *old(self)),
            albums_same(*final(self), *old(self)),
            batches_same(*final(self), *old(self)),
            entregas_same(*final(self), *old(self)),
    {
        let row = Track {
            id: self.next_track_id,
            title: rec.title.clone(),
            artist_name: rec.artist_name.clone(),
            album_id: rec.album_id,
            duration_seconds: rec.duration_seconds,
            bpm: rec.bpm,
            tone: rec.tone.clone(),
            position: rec.position.clone(),
            score: rec.score.clone(),
            entrega_id: rec.entrega_id,
            created_at: rec.created_at.clone(),
        };
        let out = Track {
            id: self.next_track_id,
            title: rec.title.clone(),
            artist_name: rec.artist_name.clone(),
            album_id: rec.album_id,
            duration_seconds: rec.duration_seconds,
            bpm: rec.bpm,
            tone: rec.tone.clone(),
            position: rec.position.clone(),
            score: rec.score.clone(),
            entrega_id: rec.entrega_id,
            created_at: rec.created_at.clone(),
        };
        self.tracks.push(row);
        self.next_track_id = self.next_track_id + 1;
        out
    }

    /// Replace every mutable field of the track row with this id, or
    /// report `NotFound` and change nothing when no row has it.
    pub fn update_track(&mut self, id: i64, rec: &NewTrack) -> (r: Result<Track, StoreError>)
        requires
            old(self).wf(),
        ensures
            final(self).wf(),
            match r {
                Ok(t) => {
                    &&& find_track(old(self).tracks@, id) matches Some(i)
                        && final(self).tracks@ == old(self).tracks@.update(i, t)
                    &&& t == (Track {
                        id: id,
                        title: rec.title,
                        artist_name: rec.artist_name,
                        album_id: rec.album_id,
                        duration_seconds: rec.duration_seconds,
                        bpm: rec.bpm,
                        tone: rec.tone,
                        position: rec.position,
                        score: rec.score,
                        entrega_id: rec.entrega_id,
                        created_at: rec.created_at,
                    })
                    &&& final(self).next_track_id == old(self).next_track_id
                    &&& artists_same(*final(self), *old(self))
                    &&& albums_same(*final(self), *old(self))
                    &&& batches_same(*final(self), *old(self))
                    &&& entregas_same(*final(self), *old(self))
                },
                Err(e) => {
                    &&& e matches StoreError::NotFound
                    &&& find_track(old(self).tracks@, id) is None
                    &&& *final(self) == *old(self)
                },
            },
    {
        let n = self.tracks.len();
        let mut i: usize = 0;
        while i < n
            invariant
                n == self.tracks.len(),
                i <= n,
                forall|k: int| 0 <= k < i ==> !(#[trigger] self.tracks@[k].id == id),
                *self == *old(self),
                old(self).wf(),
            decreases n - i,
        {
            if self.tracks[i].id == id {
                proof {
                    lemma_find_track_at(self.tracks@, id, i as int);
                }
                let row = Track {
                    id: id,
                    title: rec.title.clone(),
                    artist_name: rec.artist_name.clone(),
                    album_id: rec.album_id,
                    duration_seconds: rec.duration_seconds,
                    bpm: rec.bpm,
                    tone: rec.tone.clone(),
                    position: rec.position.clone(),
                    score: rec.score.clone(),
                    entrega_id: rec.entrega_id,
                    created_at: rec.created_at.clone(),
                };
                let out = Track {
                    id: id,
                    title: rec.title.clone(),
                    artist_name: rec.artist_name.clone(),
                    album_id: rec.album_id,
                    duration_seconds: rec.duration_seconds,
                    bpm: rec.bpm,
                    tone: rec.tone.clone(),
                    position: rec.position.clone(),
                    score: rec.score.clone(),
                    entrega_id: rec.entrega_id,
                    created_at: rec.created_at.clone(),
                };
                self.tracks[i] = row;
                proof {
                    let rows0 = old(self).tracks@;
                    let rows1 = self.tracks@;
                    assert(forall|k: int|
                        0 <= k < rows1.len() ==> #[trigger] rows1[k].id == rows0[k].id);
                }
                return Ok(out);
            }
            i = i + 1;
        }
        proof {
            lemma_find_track_advance(self.tracks@, id, n as int);
        }
        Err(StoreError::NotFound)
    }

    /// Insert a batch row with the next free id; returns the stored row.
    pub fn create_batch(&mut self, rec: &NewBatch) -> (b: Batch)
        requires
            old(self).wf(),
            old(self).next_batch_id < i64::MAX,
        ensures
            final(self).wf(),
            b == (Batch {
                id: old(self).next_batch_id,
                name: rec.name,
                created_at: rec.created_at,
            }),
            final(self).batches@ == old(self).batches@.push(b),
            final(self).next_batch_id == old(self).next_batch_id + 1,
            artists_same(*final(self), *old(self)),
            albums_same(*final(self), *old(self)),
            tracks_same(*final(self), *old(self)),
            entregas_same(*final(self), *old(self)),
    {
        let row = Batch {
            id: self.next_batch_id,
            name: rec.name.clone(),
            created_at: rec.created_at.clone(),
        };
        let out = Batch {
            id: self.next_batch_id,
            name: rec.name.clone(),
            created_at: rec.created_at.clone(),
        };
        self.batches.push(row);
        self.next_batch_id = self.next_batch_id + 1;
        out
    }

    /// Replace every mutable field of the batch row with this id, or
    /// report `NotFound` and change nothing when no row has it.
    pub fn update_batch(&mut self, id: i64, rec: &NewBatch) -> (r: Result<Batch, StoreError>)
        requires
            old(self).wf(),
        ensures
            final(self).wf(),
            match r {
                Ok(b) => {
                    &&& find_batch(old(self).batches@, id) matches Some(i)
                        && final(self).batches@ == old(self).batches@.update(i, b)
                    &&& b == (Batch { id: id, name: rec.name, created_at: rec.created_at })
                    &&& final(self).next_batch_id == old(self).next_batch_id
                    &&& artists_same(*final(self), *old(self))
                    &&& albums_same(*final(self), *old(self))
                    &&& tracks_same(*final(self), *old(self))
                    &&& entregas_same(*final(self), *old(self))
                },
                Err(e) => {
                    &&& e matches StoreError::NotFound
                    &&& find_batch(old(self).batches@, id) is None
                    &&& *final(self) == *old(self)
                },
            },
    {
        let n = self.batches.len();
        let mut i: usize = 0;
        while i < n
            invariant
                n == self.batches.len(),
                i <= n,
                forall|k: int| 0 <= k < i ==> !(#[trigger] self.batches@[k].id == id),
                *self == *old(self),
                old(self).wf(),
            decreases n - i,
        {
            if self.batches[i].id == id {
                proof {
                    lemma_find_batch_at(self.batches@, id, i as int);
                }
                let row = Batch {
                    id: id,
                    name: rec.name.clone(),
                    created_at: rec.created_at.clone(),
                };
                let out = Batch {
                    id: id,
                    name: rec.name.clone(),
                    created_at: rec.created_at.clone(),
                };
                self.batches[i] = row;
                proof {
                    let rows0 = old(self).batches@;
                    let rows1 = self.batches@;
                    assert(forall|k: int|
                        0 <= k < rows1.len() ==> #[trigger] rows1[k].id == rows0[k].id);
                }
                return Ok(out);
            }
            i = i + 1;
        }
        proof {
            lemma_find_batch_advance(self.batches@, id, n as int);
        }
        Err(StoreError::NotFound)
    }
}

/// A fresh track row equal to the given one, field by field.
fn clone_track(t: &Track) -> (r: Track)
    ensures
        r == *t,
{
    Track {
        id: t.id,
        title: t.title.clone(),
        artist_name: t.artist_name.clone(),
        album_id: t.album_id,
        duration_seconds: t.duration_seconds,
        bpm: t.bpm,
        tone: t.tone.clone(),
        position: t.position.clone(),
        score: t.score.clone(),
        entrega_id: t.entrega_id,
        created_at: t.created_at.clone(),
    }
}

/// Compare two tracks in the listing order.
fn track_le_exec(a: &Track, b: &Track) -> (r: bool)
    ensures
        r == track_le(*a, *b),
{
    match (&a.position, &b.position) {
        (None, None) => a.id <= b.id,
        (None, Some(_)) => true,
        (Some(_), None) => false,
        (Some(x), Some(y)) => {
            if *x == *y {
                a.id <= b.id
            } else {
                crate::articles::str_lex_le(x.as_str(), y.as_str())
            }
        },
    }
}

/// The place where a track belongs in a sorted listing.
fn track_insertion_point(sorted: &Vec<Track>, x: &Track) -> (j: usize)
    requires
        sorted_tracks(sorted@),
    ensures
        j <= sorted@.len(),
        forall|k: int| 0 <= k < j ==> track_le(#[trigger] sorted@[k], *x),
        forall|k: int| j <= k < sorted@.len() ==> track_le(*x, #[trigger] sorted@[k]),
{
    let mut j: usize = 0;
    while j < sorted.len()
        invariant
            sorted_tracks(sorted@),
            j <= sorted@.len(),
            forall|k: int| 0 <= k < j ==> track_le(#[trigger] sorted@[k], *x),
        decreases sorted.len() - j,
    {
        if !track_le_exec(&sorted[j], x) {
            proof {
                lemma_track_le_total(sorted@[j as int], *x);
                assert forall|k: int| j <= k < sorted@.len() implies track_le(
                    *x,
                    #[trigger] sorted@[k],
                ) by {
                    if k > j {
                        lemma_track_le_transitive(*x, sorted@[j as int], sorted@[k]);
                    }
                }
            }
            return j;
        }
        j = j + 1;
    }
    j
}

/// A found index is in range and its row carries the id.
proof fn lemma_find_entrega_bounds(rows: Seq<Entrega>, id: i64)
    ensures
        find_entrega(rows, id) matches Some(j) ==> 0 <= j < rows.len() && rows[j].id == id,
    decreases rows.len(),
{
    if rows.len() > 0 && rows[0].id != id {
        lemma_find_entrega_bounds(rows.drop_first(), id);
    }
}

/// If every row before `i` misses the id and row `i` hits it, the first
/// match is at `i`.
proof fn lemma_find_entrega_at(rows: Seq<Entrega>, id: i64, i: int)
    requires
        0 <= i < rows.len(),
        rows[i].id == id,
        forall|k: int| 0 <= k < i ==> !(#[trigger] rows[k].id == id),
    ensures
        find_entrega(rows, id) == Some(i),
    decreases i,
{
    if i == 0 {
    } else {
        assert(rows.drop_first()[i - 1].id == id);
        lemma_find_entrega_at(rows.drop_first(), id, i - 1);
    }
}

/// If every row before `i` misses the id, the first match (if any) is at
/// or after `i`; past the end, there is none.
proof fn lemma_find_entrega_advance(rows: Seq<Entrega>, id: i64, i: int)
    requires
        0 <= i <= rows.len(),
        forall|k: int| 0 <= k < i ==> !(#[trigger] rows[k].id == id),
    ensures
        find_entrega(rows, id) matches Some(j) ==> i <= j,
        i == rows.len() ==> find_entrega(rows, id) is None,
    decreases i,
{
    lemma_find_entrega_bounds(rows, id);
    if i > 0 {
        assert(rows[0].id != id);
        assert(forall|k: int| 0 <= k < i - 1 ==> !(#[trigger] rows.drop_first()[k].id == id));
        lemma_find_entrega_advance(rows.drop_first(), id, i - 1);
    }
}

/// A found index is in range and its row carries the id.
proof fn lemma_find_album_bounds(rows: Seq<Album>, id: i64)
    ensures
        find_album(rows, id) matches Some(j) ==> 0 <= j < rows.len() && rows[j].id == id,
    decreases rows.len(),
{
    if rows.len() > 0 && rows[0].id != id {
        lemma_find_album_bounds(rows.drop_first(), id);
    }
}

/// If every row before `i` misses the id and row `i` hits it, the first
/// match is at `i`.
proof fn lemma_find_album_at(rows: Seq<Album>, id: i64, i: int)
    requires
        0 <= i < rows.len(),
        rows[i].id == id,
        forall|k: int| 0 <= k < i ==> !(#[trigger] rows[k].id == id),
    ensures
        find_album(rows, id) == Some(i),
    decreases i,
{
    if i == 0 {
    } else {
        assert(rows.drop_first()[i - 1].id == id);
        lemma_find_album_at(rows.drop_first(), id, i - 1);
    }
}

/// If every row before `i` misses the id, the first match (if any) is at
/// or after `i`; past the end, there is none.
proof fn lemma_find_album_advance(rows: Seq<Album>, id: i64, i: int)
    requires
        0 <= i <= rows.len(),
        forall|k: int| 0 <= k < i ==> !(#[trigger] rows[k].id == id),
    ensures
        find_album(rows, id) matches Some(j) ==> i <= j,
        i == rows.len() ==> find_album(rows, id) is None,
    decreases i,
{
    lemma_find_album_bounds(rows, id);
    if i > 0 {
        assert(rows[0].id != id);
        assert(forall|k: int| 0 <= k < i - 1 ==> !(#[trigger] rows.drop_first()[k].id == id));
        lemma_find_album_advance(rows.drop_first(), id, i - 1);
    }
}

/// A found index is in range and its row carries the id.
proof fn lemma_find_track_bounds(rows: Seq<Track>, id: i64)
    ensures
        find_track(rows, id) matches Some(j) ==> 0 <= j < rows.len() && rows[j].id == id,
    decreases rows.len(),
{
    if rows.len() > 0 && rows[0].id != id {
        lemma_find_track_bounds(rows.drop_first(), id);
    }
}

/// If every row before `i` misses the id and row `i` hits it, the first
/// match is at `i`.
proof fn lemma_find_track_at(rows: Seq<Track>, id: i64, i: int)
    requires
        0 <= i < rows.len(),
        rows[i].id == id,
        forall|k: int| 0 <= k < i ==> !(#[trigger] rows[k].id == id),
    ensures
        find_track(rows, id) == Some(i),
    decreases i,
{
    if i == 0 {
    } else {
        assert(rows.drop_first()[i - 1].id == id);
        lemma_find_track_at(rows.drop_first(), id, i - 1);
    }
}

/// If every row before `i` misses the id, the first match (if any) is at
/// or after `i`; past the end, there is none.
proof fn lemma_find_track_advance(rows: Seq<Track>, id: i64, i: int)
    requires
        0 <= i <= rows.len(),
        forall|k: int| 0 <= k < i ==> !(#[trigger] rows[k].id == id),
    ensures
        find_track(rows, id) matches Some(j) ==> i <= j,
        i == rows.len() ==> find_track(rows, id) is None,
    decreases i,
{
    lemma_find_track_bounds(rows, id);
    if i > 0 {
        assert(rows[0].id != id);
        assert(forall|k: int| 0 <= k < i - 1 ==> !(#[trigger] rows.drop_first()[k].id == id));
        lemma_find_track_advance(rows.drop_first(), id, i - 1);
    }
}

/// A found index is in range and its row carries the id.
proof fn lemma_find_batch_bounds(rows: Seq<Batch>, id: i64)
    ensures
        find_batch(rows, id) matches Some(j) ==> 0 <= j < rows.len() && rows[j].id == id,
    decreases rows.len(),
{
    if rows.len() > 0 && rows[0].id != id {
        lemma_find_batch_bounds(rows.drop_first(), id);
    }
}

/// If every row before `i` misses the id and row `i` hits it, the first
/// match is at `i`.
proof fn lemma_find_batch_at(rows: Seq<Batch>, id: i64, i: int)
    requires
        0 <= i < rows.len(),
        rows[i].id == id,
        forall|k: int| 0 <= k < i ==> !(#[trigger] rows[k].id == id),
    ensures
        find_batch(rows, id) == Some(i),
    decreases i,
{
    if i == 0 {
    } else {
        assert(rows.drop_first()[i - 1].id == id);
        lemma_find_batch_at(rows.drop_first(), id, i - 1);
    }
}

/// If every row before `i` misses the id, the first match (if any) is at
/// or after `i`; past the end, there is none.
proof fn lemma_find_batch_advance(rows: Seq<Batch>, id: i64, i: int)
    requires
        0 <= i <= rows.len(),
        forall|k: int| 0 <= k < i ==> !(#[trigger] rows[k].id == id),
    ensures
        find_batch(rows, id) matches Some(j) ==> i <= j,
        i == rows.len() ==> find_batch(rows, id) is None,
    decreases i,
{
    lemma_find_batch_bounds(rows, id);
    if i > 0 {
        assert(rows[0].id != id);
        assert(forall|k: int| 0 <= k < i - 1 ==> !(#[trigger] rows.drop_first()[k].id == id));
        lemma_find_batch_advance(rows.drop_first(), id, i - 1);
    }
}


} // verus!
