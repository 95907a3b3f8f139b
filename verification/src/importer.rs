//! The idempotent bulk importer (and its coarser seed-once variant).
//!
//! A payload names entregas and albums by natural key (name / title) and
//! lets tracks reference them by 1-based *payload position*, because the
//! payload is authored before any store identifiers exist. The importer
//! walks the payload in one pass per table — entregas, then albums, then
//! tracks, then batches — inserting only what the store does not already
//! hold, and resolving every positional reference to the real identifier it
//! maps to in this run. All inserts of one run form a single all-or-nothing
//! unit: a storage fault mid-run leaves the store exactly as it was.
//!
//! The passes below are the mathematical description of that walk; the
//! executable importer is proved to produce exactly their result.

use vstd::prelude::*;

use crate::models::{Album, Batch, Entrega, ImportPayload, NewAlbum, NewBatch, NewEntrega,
    NewTrack, StoreError, Track, opt_seq};
use crate::store::{Store, artists_same, wf_albums, wf_batches, wf_entregas, wf_tracks};

verus! {

/// The id of the last entrega row carrying this name, if any. "Last" makes
/// a record inserted earlier in the same run win over older store rows with
/// the same name, exactly as a lookup table filled in id order would.
pub open spec fn lookup_entrega_id(rows: Seq<Entrega>, name: Seq<char>) -> Option<i64>
    decreases rows.len(),
{
    if rows.len() == 0 {
        None
    } else if rows.last().name@ == name {
        Some(rows.last().id)
    } else {
        lookup_entrega_id(rows.drop_last(), name)
    }
}

/// The id of the last album row carrying this title, if any.
pub open spec fn lookup_album_id(rows: Seq<Album>, title: Seq<char>) -> Option<i64>
    decreases rows.len(),
{
    if rows.len() == 0 {
        None
    } else if rows.last().title@ == title {
        Some(rows.last().id)
    } else {
        lookup_album_id(rows.drop_last(), title)
    }
}

/// A 1-based payload position resolved through a position-to-id map; out of
/// range or absent resolves to nothing.
pub open spec fn resolve_pos(map: Seq<i64>, pos: Option<i64>) -> Option<i64> {
    match pos {
        Some(p) => if 1 <= p && p <= map.len() {
            Some(map[p - 1])
        } else {
            None
        },
        None => None,
    }
}

/// Whether some track row carries this dedup key
/// `(title, artist_name, entrega_id)`.
pub open spec fn has_track_key(
    rows: Seq<Track>,
    title: Seq<char>,
    artist: Seq<char>,
    entrega_id: Option<i64>,
) -> bool {
    exists|i: int|
        0 <= i < rows.len() && #[trigger] rows[i].title@ == title && rows[i].artist_name@ == artist
            && rows[i].entrega_id == entrega_id
}

/// One importer pass over the payload's entregas: position k + 1 maps to
/// the existing row's id when the name is already present (no insert), and
/// to a freshly assigned id otherwise. Returns the table rows, the next
/// free id, and the position-to-id map, in payload order.
pub open spec fn entrega_pass(rows: Seq<Entrega>, next: i64, items: Seq<NewEntrega>) -> (
    Seq<Entrega>,
    i64,
    Seq<i64>,
)
    decreases items.len(),
{
    if items.len() == 0 {
        (rows, next, Seq::empty())
    } else {
        let item = items[0];
        let hit = lookup_entrega_id(rows, item.name@);
        let rows1 = if hit is Some {
            rows
        } else {
            rows.push(
                Entrega {
                    id: next,
                    name: item.name,
                    batch_id: item.batch_id,
                    created_at: item.created_at,
                },
            )
        };
        let next1 = if hit is Some {
            next
        } else {
            (next + 1) as i64
        };
        let id = match hit {
            Some(found) => found,
            None => next,
        };
        let (rows2, next2, map2) = entrega_pass(rows1, next1, items.drop_first());
        (rows2, next2, seq![id] + map2)
    }
}

/// One importer pass over the payload's albums, keyed by title.
pub open spec fn album_pass(rows: Seq<Album>, next: i64, items: Seq<NewAlbum>) -> (
    Seq<Album>,
    i64,
    Seq<i64>,
)
    decreases items.len(),
{
    if items.len() == 0 {
        (rows, next, Seq::empty())
    } else {
        let item = items[0];
        let hit = lookup_album_id(rows, item.title@);
        let rows1 = if hit is Some {
            rows
        } else {
            rows.push(
                Album {
                    id: next,
                    title: item.title,
                    artist_id: item.artist_id,
                    release_year: item.release_year,
                    label: item.label,
                    format: item.format,
                    country: item.country,
                    genre: item.genre,
                    style: item.style,
                    created_at: item.created_at,
                },
            )
        };
        let next1 = if hit is Some {
            next
        } else {
            (next + 1) as i64
        };
        let id = match hit {
            Some(found) => found,
            None => next,
        };
        let (rows2, next2, map2) = album_pass(rows1, next1, items.drop_first());
        (rows2, next2, seq![id] + map2)
    }
}

/// The row a payload track becomes: positional references resolved through
/// the two maps of this run.
pub open spec fn resolved_track(item: NewTrack, id: i64, emap: Seq<i64>, amap: Seq<i64>) -> Track {
    Track {
        id: id,
        title: item.title,
        artist_name: item.artist_name,
        album_id: resolve_pos(amap, item.album_id),
        duration_seconds: item.duration_seconds,
        bpm: item.bpm,
        tone: item.tone,
        position: item.position,
        score: item.score,
        entrega_id: resolve_pos(emap, item.entrega_id),
        created_at: item.created_at,
    }
}

/// One importer pass over the payload's tracks: a record whose dedup key
/// `(title, artist_name, resolved entrega id)` is already present — in the
/// store or from an earlier record of this same run — is skipped entirely.
pub open spec fn track_pass(
    rows: Seq<Track>,
    next: i64,
    items: Seq<NewTrack>,
    emap: Seq<i64>,
    amap: Seq<i64>,
) -> (Seq<Track>, i64)
    decreases items.len(),
{
    if items.len() == 0 {
        (rows, next)
    } else {
        let item = items[0];
        let eid = resolve_pos(emap, item.entrega_id);
        let rows1 = if has_track_key(rows, item.title@, item.artist_name@, eid) {
            rows
        } else {
            rows.push(resolved_track(item, next, emap, amap))
        };
        let next1 = if has_track_key(rows, item.title@, item.artist_name@, eid) {
            next
        } else {
            (next + 1) as i64
        };
        track_pass(rows1, next1, items.drop_first(), emap, amap)
    }
}

/// One importer pass over the payload's batches: every record is inserted;
/// no dedup rule is defined for batches in this mode.
pub open spec fn batch_pass(rows: Seq<Batch>, next: i64, items: Seq<NewBatch>) -> (Seq<Batch>, i64)
    decreases items.len(),
{
    if items.len() == 0 {
        (rows, next)
    } else {
        let item = items[0];
        let rows1 = rows.push(
            Batch { id: next, name: item.name, created_at: item.created_at },
        );
        batch_pass(rows1, (next + 1) as i64, items.drop_first())
    }
}

/// The entrega position-to-id map this payload resolves to against this
/// store state.
pub open spec fn entrega_map(s: Store, p: ImportPayload) -> Seq<i64> {
    entrega_pass(s.entregas@, s.next_entrega_id, opt_seq(p.entregas)).2
}

/// The album position-to-id map this payload resolves to against this
/// store state.
pub open spec fn album_map(s: Store, p: ImportPayload) -> Seq<i64> {
    album_pass(s.albums@, s.next_album_id, opt_seq(p.albums)).2
}

/// How many entregas an import of `p` against `s` creates.
pub open spec fn entregas_created(s: Store, p: ImportPayload) -> int {
    entrega_pass(s.entregas@, s.next_entrega_id, opt_seq(p.entregas)).0.len() - s.entregas@.len()
}

/// How many albums an import of `p` against `s` creates.
pub open spec fn albums_created(s: Store, p: ImportPayload) -> int {
    album_pass(s.albums@, s.next_album_id, opt_seq(p.albums)).0.len() - s.albums@.len()
}

/// How many tracks an import of `p` against `s` creates.
pub open spec fn tracks_created(s: Store, p: ImportPayload) -> int {
    track_pass(
        s.tracks@,
        s.next_track_id,
        opt_seq(p.tracks),
        entrega_map(s, p),
        album_map(s, p),
    ).0.len() - s.tracks@.len()
}

/// How many rows an import of `p` against `s` inserts in all, batches
/// included: the number of store writes of the run.
pub open spec fn import_inserts(s: Store, p: ImportPayload) -> int {
    entregas_created(s, p) + albums_created(s, p) + tracks_created(s, p) + opt_seq(
        p.batches,
    ).len()
}

/// `s1` is exactly the result of importing `p` into `s0`: each table and
/// its id counter are what the table's pass yields, and artists are
/// untouched.
pub open spec fn import_applied(s0: Store, s1: Store, p: ImportPayload) -> bool {
    let (es, enext, emap) = entrega_pass(s0.entregas@, s0.next_entrega_id, opt_seq(p.entregas));
    let (als, anext, amap) = album_pass(s0.albums@, s0.next_album_id, opt_seq(p.albums));
    let (ts, tnext) = track_pass(s0.tracks@, s0.next_track_id, opt_seq(p.tracks), emap, amap);
    let (bs, bnext) = batch_pass(s0.batches@, s0.next_batch_id, opt_seq(p.batches));
    &&& s1.entregas@ == es && s1.next_entrega_id == enext
    &&& s1.albums@ == als && s1.next_album_id == anext
    &&& s1.tracks@ == ts && s1.next_track_id == tnext
    &&& s1.batches@ == bs && s1.next_batch_id == bnext
    &&& artists_same(s1, s0)
}

/// What a successful import returns: how many rows of each deduplicated
/// table this run created.
pub struct ImportCounts {
    pub entregas_created: usize,
    pub albums_created: usize,
    pub tracks_created: usize,
}

/// An entrega pass only appends: the table never shrinks, it grows by at
/// most one row per record, and every record gets a map entry.
pub proof fn lemma_entrega_pass_len(rows: Seq<Entrega>, next: i64, items: Seq<NewEntrega>)
    ensures
        ({
            let (rows1, next1, map) = entrega_pass(rows, next, items);
            &&& rows.len() <= rows1.len()
            &&& rows1.len() - rows.len() <= items.len()
            &&& map.len() == items.len()
        }),
    decreases items.len(),
{
    if items.len() > 0 {
        let item = items[0];
        let hit = lookup_entrega_id(rows, item.name@);
        let rows1 = if hit is Some {
            rows
        } else {
            rows.push(
                Entrega {
                    id: next,
                    name: item.name,
                    batch_id: item.batch_id,
                    created_at: item.created_at,
                },
            )
        };
        let next1 = if hit is Some {
            next
        } else {
            (next + 1) as i64
        };
        lemma_entrega_pass_len(rows1, next1, items.drop_first());
    }
}

/// An entrega pass keeps the table invariant and advances the id counter
/// by exactly the number of rows it adds.
pub proof fn lemma_entrega_pass_wf(rows: Seq<Entrega>, next: i64, items: Seq<NewEntrega>)
    requires
        wf_entregas(rows, next),
        next + items.len() <= i64::MAX,
    ensures
        ({
            let (rows1, next1, map) = entrega_pass(rows, next, items);
            &&& wf_entregas(rows1, next1)
            &&& next1 == next + rows1.len() - rows.len()
        }),
    decreases items.len(),
{
    lemma_entrega_pass_len(rows, next, items);
    if items.len() > 0 {
        let item = items[0];
        let hit = lookup_entrega_id(rows, item.name@);
        if hit is Some {
            lemma_entrega_pass_wf(rows, next, items.drop_first());
        } else {
            let row = Entrega {
                id: next,
                name: item.name,
                batch_id: item.batch_id,
                created_at: item.created_at,
            };
            assert(wf_entregas(rows.push(row), (next + 1) as i64));
            lemma_entrega_pass_wf(rows.push(row), (next + 1) as i64, items.drop_first());
        }
    }
}

/// An album pass only appends, one row at most per record, one map entry
/// each.
pub proof fn lemma_album_pass_len(rows: Seq<Album>, next: i64, items: Seq<NewAlbum>)
    ensures
        ({
            let (rows1, next1, map) = album_pass(rows, next, items);
            &&& rows.len() <= rows1.len()
            &&& rows1.len() - rows.len() <= items.len()
            &&& map.len() == items.len()
        }),
    decreases items.len(),
{
    if items.len() > 0 {
        let item = items[0];
        let hit = lookup_album_id(rows, item.title@);
        let rows1 = if hit is Some {
            rows
        } else {
            rows.push(
                Album {
                    id: next,
                    title: item.title,
                    artist_id: item.artist_id,
                    release_year: item.release_year,
                    label: item.label,
                    format: item.format,
                    country: item.country,
                    genre: item.genre,
                    style: item.style,
                    created_at: item.created_at,
                },
            )
        };
        let next1 = if hit is Some {
            next
        } else {
            (next + 1) as i64
        };
        lemma_album_pass_len(rows1, next1, items.drop_first());
    }
}

/// An album pass keeps the table invariant and advances the id counter by
/// exactly the number of rows it adds.
pub proof fn lemma_album_pass_wf(rows: Seq<Album>, next: i64, items: Seq<NewAlbum>)
    requires
        wf_albums(rows, next),
        next + items.len() <= i64::MAX,
    ensures
        ({
            let (rows1, next1, map) = album_pass(rows, next, items);
            &&& wf_albums(rows1, next1)
            &&& next1 == next + rows1.len() - rows.len()
        }),
    decreases items.len(),
{
    lemma_album_pass_len(rows, next, items);
    if items.len() > 0 {
        let item = items[0];
        let hit = lookup_album_id(rows, item.title@);
        if hit is Some {
            lemma_album_pass_wf(rows, next, items.drop_first());
        } else {
            let row = Album {
                id: next,
                title: item.title,
                artist_id: item.artist_id,
                release_year: item.release_year,
                label: item.label,
                format: item.format,
                country: item.country,
                genre: item.genre,
                style: item.style,
                created_at: item.created_at,
            };
            assert(wf_albums(rows.push(row), (next + 1) as i64));
            lemma_album_pass_wf(rows.push(row), (next + 1) as i64, items.drop_first());
        }
    }
}

/// A track pass only appends, one row at most per record.
pub proof fn lemma_track_pass_len(
    rows: Seq<Track>,
    next: i64,
    items: Seq<NewTrack>,
    emap: Seq<i64>,
    amap: Seq<i64>,
)
    ensures
        ({
            let (rows1, next1) = track_pass(rows, next, items, emap, amap);
            &&& rows.len() <= rows1.len()
            &&& rows1.len() - rows.len() <= items.len()
        }),
    decreases items.len(),
{
    if items.len() > 0 {
        let item = items[0];
        let eid = resolve_pos(emap, item.entrega_id);
        let rows1 = if has_track_key(rows, item.title@, item.artist_name@, eid) {
            rows
        } else {
            rows.push(resolved_track(item, next, emap, amap))
        };
        let next1 = if has_track_key(rows, item.title@, item.artist_name@, eid) {
            next
        } else {
            (next + 1) as i64
        };
        lemma_track_pass_len(rows1, next1, items.drop_first(), emap, amap);
    }
}

/// A track pass keeps the table invariant and advances the id counter by
/// exactly the number of rows it adds.
pub proof fn lemma_track_pass_wf(
    rows: Seq<Track>,
    next: i64,
    items: Seq<NewTrack>,
    emap: Seq<i64>,
    amap: Seq<i64>,
)
    requires
        wf_tracks(rows, next),
        next + items.len() <= i64::MAX,
    ensures
        ({
            let (rows1, next1) = track_pass(rows, next, items, emap, amap);
            &&& wf_tracks(rows1, next1)
            &&& next1 == next + rows1.len() - rows.len()
        }),
    decreases items.len(),
{
    lemma_track_pass_len(rows, next, items, emap, amap);
    if items.len() > 0 {
        let item = items[0];
        let eid = resolve_pos(emap, item.entrega_id);
        if has_track_key(rows, item.title@, item.artist_name@, eid) {
            lemma_track_pass_wf(rows, next, items.drop_first(), emap, amap);
        } else {
            let row = resolved_track(item, next, emap, amap);
            assert(wf_tracks(rows.push(row), (next + 1) as i64));
            lemma_track_pass_wf(rows.push(row), (next + 1) as i64, items.drop_first(), emap, amap);
        }
    }
}

/// A batch pass appends exactly one row per record and keeps the table
/// invariant.
pub proof fn lemma_batch_pass_wf(rows: Seq<Batch>, next: i64, items: Seq<NewBatch>)
    requires
        wf_batches(rows, next),
        next + items.len() <= i64::MAX,
    ensures
        ({
            let (rows1, next1) = batch_pass(rows, next, items);
            &&& wf_batches(rows1, next1)
            &&& rows1.len() == rows.len() + items.len()
            &&& next1 == next + items.len()
        }),
    decreases items.len(),
{
    if items.len() > 0 {
        let item = items[0];
        let row = Batch { id: next, name: item.name, created_at: item.created_at };
        assert(wf_batches(rows.push(row), (next + 1) as i64));
        lemma_batch_pass_wf(rows.push(row), (next + 1) as i64, items.drop_first());
    }
}

/// A name lookup over committed rows followed by staged rows is a lookup
/// over their concatenation.
proof fn lemma_lookup_entrega_split(a: Seq<Entrega>, b: Seq<Entrega>, name: Seq<char>)
    ensures
        lookup_entrega_id(a + b, name) == (match lookup_entrega_id(b, name) {
            Some(id) => Some(id),
            None => lookup_entrega_id(a, name),
        }),
    decreases b.len(),
{
    if b.len() == 0 {
        assert(a + b =~= a);
    } else {
        assert((a + b).last() == b.last());
        if b.last().name@ != name {
            assert((a + b).drop_last() =~= a + b.drop_last());
            lemma_lookup_entrega_split(a, b.drop_last(), name);
        }
    }
}

/// A title lookup over committed rows followed by staged rows is a lookup
/// over their concatenation.
proof fn lemma_lookup_album_split(a: Seq<Album>, b: Seq<Album>, title: Seq<char>)
    ensures
        lookup_album_id(a + b, title) == (match lookup_album_id(b, title) {
            Some(id) => Some(id),
            None => lookup_album_id(a, title),
        }),
    decreases b.len(),
{
    if b.len() == 0 {
        assert(a + b =~= a);
    } else {
        assert((a + b).last() == b.last());
        if b.last().title@ != title {
            assert((a + b).drop_last() =~= a + b.drop_last());
            lemma_lookup_album_split(a, b.drop_last(), title);
        }
    }
}

/// The last entrega row with this name, searching one table.
fn lookup_entrega_in(rows: &Vec<Entrega>, name: &String) -> (r: Option<i64>)
    ensures
        r == lookup_entrega_id(rows@, name@),
{
    let mut i: usize = rows.len();
    proof {
        assert(rows@.take(i as int) =~= rows@);
    }
    while i > 0
        invariant
            i <= rows.len(),
            lookup_entrega_id(rows@, name@) == lookup_entrega_id(rows@.take(i as int), name@),
        decreases i,
    {
        if rows[i - 1].name == *name {
            proof {
                assert(rows@.take(i as int).last() == rows@[i - 1]);
            }
            return Some(rows[i - 1].id);
        }
        proof {
            assert(rows@.take(i as int).drop_last() =~= rows@.take(i as int - 1));
        }
        i = i - 1;
    }
    None
}

/// The last album row with this title, searching one table.
fn lookup_album_in(rows: &Vec<Album>, title: &String) -> (r: Option<i64>)
    ensures
        r == lookup_album_id(rows@, title@),
{
    let mut i: usize = rows.len();
    proof {
        assert(rows@.take(i as int) =~= rows@);
    }
    while i > 0
        invariant
            i <= rows.len(),
            lookup_album_id(rows@, title@) == lookup_album_id(rows@.take(i as int), title@),
        decreases i,
    {
        if rows[i - 1].title == *title {
            proof {
                assert(rows@.take(i as int).last() == rows@[i - 1]);
            }
            return Some(rows[i - 1].id);
        }
        proof {
            assert(rows@.take(i as int).drop_last() =~= rows@.take(i as int - 1));
        }
        i = i - 1;
    }
    None
}

/// The last entrega with this name among committed rows then staged rows:
/// what the run's lookup table holds for the name at this point.
fn lookup_entrega_staged(base: &Vec<Entrega>, staged: &Vec<Entrega>, name: &String) -> (r: Option<
    i64,
>)
    ensures
        r == lookup_entrega_id(base@ + staged@, name@),
{
    proof {
        lemma_lookup_entrega_split(base@, staged@, name@);
    }
    match lookup_entrega_in(staged, name) {
        Some(id) => Some(id),
        None => lookup_entrega_in(base, name),
    }
}

/// The last album with this title among committed rows then staged rows.
fn lookup_album_staged(base: &Vec<Album>, staged: &Vec<Album>, title: &String) -> (r: Option<i64>)
    ensures
        r == lookup_album_id(base@ + staged@, title@),
{
    proof {
        lemma_lookup_album_split(base@, staged@, title@);
    }
    match lookup_album_in(staged, title) {
        Some(id) => Some(id),
        None => lookup_album_in(base, title),
    }
}

/// Optional-id equality, spelled out.
fn opt_id_eq(a: Option<i64>, b: Option<i64>) -> (r: bool)
    ensures
        r == (a == b),
{
    match (a, b) {
        (None, None) => true,
        (Some(x), Some(y)) => x == y,
        _ => false,
    }
}

/// Whether any row of one table carries the dedup key.
fn has_track_key_in(
    rows: &Vec<Track>,
    title: &String,
    artist: &String,
    entrega_id: Option<i64>,
) -> (r: bool)
    ensures
        r == has_track_key(rows@, title@, artist@, entrega_id),
{
    let mut i: usize = 0;
    while i < rows.len()
        invariant
            i <= rows.len(),
            forall|k: int|
                0 <= k < i ==> !(#[trigger] rows@[k].title@ == title@
                    && rows@[k].artist_name@ == artist@ && rows@[k].entrega_id == entrega_id),
        decreases rows.len() - i,
    {
        if rows[i].title == *title && rows[i].artist_name == *artist && opt_id_eq(
            rows[i].entrega_id,
            entrega_id,
        ) {
            return true;
        }
        i = i + 1;
    }
    false
}

/// Whether the dedup key is already taken, in the store or by a record
/// staged earlier in this same run.
fn has_track_key_staged(
    base: &Vec<Track>,
    staged: &Vec<Track>,
    title: &String,
    artist: &String,
    entrega_id: Option<i64>,
) -> (r: bool)
    ensures
        r == has_track_key(base@ + staged@, title@, artist@, entrega_id),
{
    let in_base = has_track_key_in(base, title, artist, entrega_id);
    let in_staged = has_track_key_in(staged, title, artist, entrega_id);
    proof {
        let whole = base@ + staged@;
        if in_base {
            let i = choose|i: int|
                0 <= i < base@.len() && #[trigger] base@[i].title@ == title@
                    && base@[i].artist_name@ == artist@ && base@[i].entrega_id == entrega_id;
            assert(whole[i] == base@[i]);
        }
        if in_staged {
            let i = choose|i: int|
                0 <= i < staged@.len() && #[trigger] staged@[i].title@ == title@
                    && staged@[i].artist_name@ == artist@ && staged@[i].entrega_id == entrega_id;
            assert(whole[base@.len() + i] == staged@[i]);
        }
        if has_track_key(whole, title@, artist@, entrega_id) {
            let i = choose|i: int|
                0 <= i < whole.len() && #[trigger] whole[i].title@ == title@
                    && whole[i].artist_name@ == artist@ && whole[i].entrega_id == entrega_id;
            if i < base@.len() {
                assert(whole[i] == base@[i]);
            } else {
                assert(whole[i] == staged@[i - base@.len()]);
            }
        }
    }
    in_base || in_staged
}

impl Store {
    /// Import a payload, all-or-nothing, under a simulated storage fault:
    /// with `fault_at == Some(k)`, the run's row inserts are numbered from
    /// zero in execution order — created entregas, created albums, created
    /// tracks, then batches — and insert `k` fails as a write against the
    /// store would. A faulted run rolls back: the store is left exactly as
    /// it was and the error surfaces unchanged. A run whose inserts all
    /// precede the fault (or with no fault) commits exactly the four
    /// passes' result and reports how many rows each deduplicated table
    /// gained.
    pub fn import_with_fault(&mut self, payload: &ImportPayload, fault_at: Option<usize>) -> (r:
        Result<ImportCounts, StoreError>)
        requires
            old(self).wf(),
            old(self).next_entrega_id + opt_seq(payload.entregas).len() <= i64::MAX,
            old(self).next_album_id + opt_seq(payload.albums).len() <= i64::MAX,
            old(self).next_track_id + opt_seq(payload.tracks).len() <= i64::MAX,
            old(self).next_batch_id + opt_seq(payload.batches).len() <= i64::MAX,
            opt_seq(payload.entregas).len() + opt_seq(payload.albums).len() + opt_seq(
                payload.tracks,
            ).len() + opt_seq(payload.batches).len() <= usize::MAX,
        ensures
            final(self).wf(),
            match r {
                Ok(c) => {
                    &&& import_applied(*old(self), *final(self), *payload)
                    &&& c.entregas_created == entregas_created(*old(self), *payload)
                    &&& c.albums_created == albums_created(*old(self), *payload)
                    &&& c.tracks_created == tracks_created(*old(self), *payload)
                    &&& fault_at matches Some(k) ==> k >= import_inserts(*old(self), *payload)
                },
                Err(e) => {
                    &&& e matches StoreError::Storage
                    &&& *final(self) == *old(self)
                    &&& fault_at matches Some(k) && k < import_inserts(*old(self), *payload)
                },
            },
    {
        let ghost e_items = opt_seq(payload.entregas);
        let ghost a_items = opt_seq(payload.albums);
        let ghost t_items = opt_seq(payload.tracks);
        let ghost b_items = opt_seq(payload.batches);
        let ghost efull = entrega_pass(old(self).entregas@, old(self).next_entrega_id, e_items);
        let ghost afull = album_pass(old(self).albums@, old(self).next_album_id, a_items);
        let ghost tfull = track_pass(
            old(self).tracks@,
            old(self).next_track_id,
            t_items,
            efull.2,
            afull.2,
        );
        let ghost bfull = batch_pass(old(self).batches@, old(self).next_batch_id, b_items);
        proof {
            lemma_entrega_pass_len(old(self).entregas@, old(self).next_entrega_id, e_items);
            lemma_album_pass_len(old(self).albums@, old(self).next_album_id, a_items);
            lemma_track_pass_len(
                old(self).tracks@,
                old(self).next_track_id,
                t_items,
                efull.2,
                afull.2,
            );
        }

        let mut new_entregas: Vec<Entrega> = Vec::new();
        let mut new_albums: Vec<Album> = Vec::new();
        let mut new_tracks: Vec<Track> = Vec::new();
        let mut new_batches: Vec<Batch> = Vec::new();
        let mut emap: Vec<i64> = Vec::new();
        let mut amap: Vec<i64> = Vec::new();
        let mut inserts_done: usize = 0;
        let mut next_e: i64 = self.next_entrega_id;
        let mut next_a: i64 = self.next_album_id;
        let mut next_t: i64 = self.next_track_id;
        let mut next_b: i64 = self.next_batch_id;

        // Pass 1: entregas, deduplicated by name.
        if let Some(items) = &payload.entregas {
            proof {
                assert(old(self).entregas@ + new_entregas@ =~= old(self).entregas@);
                assert(e_items.skip(0) =~= e_items);
                assert(efull.2.skip(0) =~= efull.2);
                assert(emap@ =~= efull.2.take(0));
            }
            let mut i: usize = 0;
            while i < items.len()
                invariant
                    *self == *old(self),
                    old(self).wf(),
                    e_items == opt_seq(payload.entregas),
                    a_items == opt_seq(payload.albums),
                    t_items == opt_seq(payload.tracks),
                    b_items == opt_seq(payload.batches),
                    items@ == e_items,
                    old(self).next_entrega_id + e_items.len() <= i64::MAX,
                    i <= items.len(),
                    emap@.len() == i,
                    new_entregas@.len() <= i,
                    inserts_done == new_entregas@.len(),
                    next_e == old(self).next_entrega_id + new_entregas@.len(),
                    efull == entrega_pass(
                        old(self).entregas@,
                        old(self).next_entrega_id,
                        e_items,
                    ),
                    entrega_pass(
                        old(self).entregas@ + new_entregas@,
                        next_e,
                        e_items.skip(i as int),
                    ) == (efull.0, efull.1, efull.2.skip(i as int)),
                    emap@ == efull.2.take(i as int),
                    efull.2.len() == e_items.len(),
                    afull == album_pass(old(self).albums@, old(self).next_album_id, a_items),
                    fault_at matches Some(k) ==> inserts_done <= k,
                decreases items.len() - i,
            {
                let ghost cur = old(self).entregas@ + new_entregas@;
                proof {
                    assert(e_items.skip(i as int)[0] == e_items[i as int]);
                    assert(e_items.skip(i as int).drop_first() =~= e_items.skip(i as int + 1));
                    assert(efull.2.skip(i as int).drop_first() =~= efull.2.skip(i as int + 1));
                }
                let item = &items[i];
                let hit = lookup_entrega_staged(&self.entregas, &new_entregas, &item.name);
                match hit {
                    Some(id) => {
                        emap.push(id);
                        proof {
                            assert(efull.2.skip(i as int)[0] == id);
                            assert(efull.2[i as int] == id);
                            assert(emap@ =~= efull.2.take(i as int + 1));
                        }
                    },
                    None => {
                        if let Some(k) = fault_at {
                            if inserts_done == k {
                                proof {
                                    let row = Entrega {
                                        id: next_e,
                                        name: item.name,
                                        batch_id: item.batch_id,
                                        created_at: item.created_at,
                                    };
                                    lemma_entrega_pass_len(
                                        cur.push(row),
                                        (next_e + 1) as i64,
                                        e_items.skip(i as int + 1),
                                    );
                                    lemma_album_pass_len(
                                        old(self).albums@,
                                        old(self).next_album_id,
                                        a_items,
                                    );
                                    lemma_track_pass_len(
                                        old(self).tracks@,
                                        old(self).next_track_id,
                                        t_items,
                                        efull.2,
                                        afull.2,
                                    );
                                }
                                return Err(StoreError::Storage);
                            }
                        }
                        let row = Entrega {
                            id: next_e,
                            name: item.name.clone(),
                            batch_id: item.batch_id,
                            created_at: item.created_at.clone(),
                        };
                        new_entregas.push(row);
                        emap.push(next_e);
                        proof {
                            assert(old(self).entregas@ + new_entregas@ =~= cur.push(row));
                            assert(efull.2.skip(i as int)[0] == next_e);
                            assert(efull.2[i as int] == next_e);
                            assert(emap@ =~= efull.2.take(i as int + 1));
                        }
                        next_e = next_e + 1;
                        inserts_done = inserts_done + 1;
                    },
                }
                i = i + 1;
            }
            proof {
                assert(e_items.skip(i as int) =~= Seq::<NewEntrega>::empty());
                assert(efull.2.take(i as int) =~= efull.2);
            }
        }
        proof {
            assert(old(self).entregas@ + new_entregas@ =~= efull.0);
            assert(next_e == efull.1);
            assert(emap@ =~= efull.2);
            assert(inserts_done == efull.0.len() - old(self).entregas@.len());
        }

        // Pass 2: albums, deduplicated by title.
        if let Some(items) = &payload.albums {
            proof {
                assert(old(self).albums@ + new_albums@ =~= old(self).albums@);
                assert(a_items.skip(0) =~= a_items);
                assert(afull.2.skip(0) =~= afull.2);
                assert(amap@ =~= afull.2.take(0));
            }
            let mut i: usize = 0;
            while i < items.len()
                invariant
                    *self == *old(self),
                    old(self).wf(),
                    e_items == opt_seq(payload.entregas),
                    a_items == opt_seq(payload.albums),
                    t_items == opt_seq(payload.tracks),
                    b_items == opt_seq(payload.batches),
                    items@ == a_items,
                    old(self).next_album_id + a_items.len() <= i64::MAX,
                    i <= items.len(),
                    amap@.len() == i,
                    new_albums@.len() <= i,
                    inserts_done == (efull.0.len() - old(self).entregas@.len())
                        + new_albums@.len(),
                    e_items.len() + a_items.len() <= usize::MAX,
                    efull.0.len() - old(self).entregas@.len() <= e_items.len(),
                    next_a == old(self).next_album_id + new_albums@.len(),
                    afull == album_pass(old(self).albums@, old(self).next_album_id, a_items),
                    album_pass(old(self).albums@ + new_albums@, next_a, a_items.skip(i as int))
                        == (afull.0, afull.1, afull.2.skip(i as int)),
                    amap@ == afull.2.take(i as int),
                    afull.2.len() == a_items.len(),
                    efull.2.len() == e_items.len(),
                    fault_at matches Some(k) ==> inserts_done <= k,
                    old(self).entregas@ + new_entregas@ == efull.0,
                    next_e == efull.1,
                    emap@ == efull.2,
                    efull == entrega_pass(
                        old(self).entregas@,
                        old(self).next_entrega_id,
                        e_items,
                    ),
                decreases items.len() - i,
            {
                let ghost cur = old(self).albums@ + new_albums@;
                proof {
                    assert(a_items.skip(i as int)[0] == a_items[i as int]);
                    assert(a_items.skip(i as int).drop_first() =~= a_items.skip(i as int + 1));
                    assert(afull.2.skip(i as int).drop_first() =~= afull.2.skip(i as int + 1));
                }
                let item = &items[i];
                let hit = lookup_album_staged(&self.albums, &new_albums, &item.title);
                match hit {
                    Some(id) => {
                        amap.push(id);
                        proof {
                            assert(afull.2.skip(i as int)[0] == id);
                            assert(afull.2[i as int] == id);
                            assert(amap@ =~= afull.2.take(i as int + 1));
                        }
                    },
                    None => {
                        if let Some(k) = fault_at {
                            if inserts_done == k {
                                proof {
                                    let row = Album {
                                        id: next_a,
                                        title: item.title,
                                        artist_id: item.artist_id,
                                        release_year: item.release_year,
                                        label: item.label,
                                        format: item.format,
                                        country: item.country,
                                        genre: item.genre,
                                        style: item.style,
                                        created_at: item.created_at,
                                    };
                                    lemma_album_pass_len(
                                        cur.push(row),
                                        (next_a + 1) as i64,
                                        a_items.skip(i as int + 1),
                                    );
                                    lemma_track_pass_len(
                                        old(self).tracks@,
                                        old(self).next_track_id,
                                        t_items,
                                        efull.2,
                                        afull.2,
                                    );
                                }
                                return Err(StoreError::Storage);
                            }
                        }
                        let row = Album {
                            id: next_a,
                            title: item.title.clone(),
                            artist_id: item.artist_id,
                            release_year: item.release_year,
                            label: item.label.clone(),
                            format: item.format.clone(),
                            country: item.country.clone(),
                            genre: item.genre.clone(),
                            style: item.style.clone(),
                            created_at: item.created_at.clone(),
                        };
                        new_albums.push(row);
                        amap.push(next_a);
                        proof {
                            assert(old(self).albums@ + new_albums@ =~= cur.push(row));
                            assert(afull.2.skip(i as int)[0] == next_a);
                            assert(afull.2[i as int] == next_a);
                            assert(amap@ =~= afull.2.take(i as int + 1));
                        }
                        next_a = next_a + 1;
                        inserts_done = inserts_done + 1;
                    },
                }
                i = i + 1;
            }
            proof {
                assert(a_items.skip(i as int) =~= Seq::<NewAlbum>::empty());
                assert(afull.2.take(i as int) =~= afull.2);
            }
        }
        proof {
            assert(old(self).albums@ + new_albums@ =~= afull.0);
            assert(next_a == afull.1);
            assert(amap@ =~= afull.2);
            assert(inserts_done == (efull.0.len() - old(self).entregas@.len()) + (afull.0.len()
                - old(self).albums@.len()));
        }

        // Pass 3: tracks, deduplicated by (title, artist_name, resolved
        // entrega id), with positional references resolved through the two
        // maps just built.
        if let Some(items) = &payload.tracks {
            proof {
                assert(old(self).tracks@ + new_tracks@ =~= old(self).tracks@);
                assert(t_items.skip(0) =~= t_items);
            }
            let mut i: usize = 0;
            while i < items.len()
                invariant
                    *self == *old(self),
                    old(self).wf(),
                    e_items == opt_seq(payload.entregas),
                    a_items == opt_seq(payload.albums),
                    t_items == opt_seq(payload.tracks),
                    b_items == opt_seq(payload.batches),
                    items@ == t_items,
                    old(self).next_track_id + t_items.len() <= i64::MAX,
                    i <= items.len(),
                    new_tracks@.len() <= i,
                    inserts_done == (efull.0.len() - old(self).entregas@.len()) + (afull.0.len()
                        - old(self).albums@.len()) + new_tracks@.len(),
                    e_items.len() + a_items.len() + t_items.len() <= usize::MAX,
                    efull.0.len() - old(self).entregas@.len() <= e_items.len(),
                    afull.0.len() - old(self).albums@.len() <= a_items.len(),
                    next_t == old(self).next_track_id + new_tracks@.len(),
                    tfull == track_pass(
                        old(self).tracks@,
                        old(self).next_track_id,
                        t_items,
                        efull.2,
                        afull.2,
                    ),
                    track_pass(
                        old(self).tracks@ + new_tracks@,
                        next_t,
                        t_items.skip(i as int),
                        efull.2,
                        afull.2,
                    ) == (tfull.0, tfull.1),
                    fault_at matches Some(k) ==> inserts_done <= k,
                    old(self).entregas@ + new_entregas@ == efull.0,
                    next_e == efull.1,
                    emap@ == efull.2,
                    efull == entrega_pass(
                        old(self).entregas@,
                        old(self).next_entrega_id,
                        e_items,
                    ),
                    old(self).albums@ + new_albums@ == afull.0,
                    next_a == afull.1,
                    amap@ == afull.2,
                    afull == album_pass(old(self).albums@, old(self).next_album_id, a_items),
                decreases items.len() - i,
            {
                let ghost cur = old(self).tracks@ + new_tracks@;
                proof {
                    assert(t_items.skip(i as int)[0] == t_items[i as int]);
                    assert(t_items.skip(i as int).drop_first() =~= t_items.skip(i as int + 1));
                }
                let item = &items[i];
                let eid = resolve_ref(&emap, item.entrega_id);
                let aid = resolve_ref(&amap, item.album_id);
                let dup = has_track_key_staged(
                    &self.tracks,
                    &new_tracks,
                    &item.title,
                    &item.artist_name,
                    eid,
                );
                if !dup {
                    if let Some(k) = fault_at {
                        if inserts_done == k {
                            proof {
                                let row = resolved_track(
                                    t_items[i as int],
                                    next_t,
                                    efull.2,
                                    afull.2,
                                );
                                lemma_track_pass_len(
                                    cur.push(row),
                                    (next_t + 1) as i64,
                                    t_items.skip(i as int + 1),
                                    efull.2,
                                    afull.2,
                                );
                            }
                            return Err(StoreError::Storage);
                        }
                    }
                    let row = Track {
                        id: next_t,
                        title: item.title.clone(),
                        artist_name: item.artist_name.clone(),
                        album_id: aid,
                        duration_seconds: item.duration_seconds,
                        bpm: item.bpm,
                        tone: item.tone.clone(),
                        position: item.position.clone(),
                        score: item.score.clone(),
                        entrega_id: eid,
                        created_at: item.created_at.clone(),
                    };
                    new_tracks.push(row);
                    proof {
                        assert(row == resolved_track(t_items[i as int], next_t, efull.2, afull.2));
                        assert(old(self).tracks@ + new_tracks@ =~= cur.push(row));
                    }
                    next_t = next_t + 1;
                    inserts_done = inserts_done + 1;
                }
                i = i + 1;
            }
            proof {
                assert(t_items.skip(i as int) =~= Seq::<NewTrack>::empty());
            }
        }
        proof {
            assert(old(self).tracks@ + new_tracks@ =~= tfull.0);
            assert(next_t == tfull.1);
            assert(inserts_done == (efull.0.len() - old(self).entregas@.len()) + (afull.0.len()
                - old(self).albums@.len()) + (tfull.0.len() - old(self).tracks@.len()));
        }

        // Pass 4: batches, inserted unconditionally.
        if let Some(items) = &payload.batches {
            proof {
                assert(old(self).batches@ + new_batches@ =~= old(self).batches@);
                assert(b_items.skip(0) =~= b_items);
            }
            let mut i: usize = 0;
            while i < items.len()
                invariant
                    *self == *old(self),
                    old(self).wf(),
                    e_items == opt_seq(payload.entregas),
                    a_items == opt_seq(payload.albums),
                    t_items == opt_seq(payload.tracks),
                    b_items == opt_seq(payload.batches),
                    items@ == b_items,
                    old(self).next_batch_id + b_items.len() <= i64::MAX,
                    i <= items.len(),
                    new_batches@.len() == i,
                    inserts_done == (efull.0.len() - old(self).entregas@.len()) + (afull.0.len()
                        - old(self).albums@.len()) + (tfull.0.len() - old(self).tracks@.len())
                        + i,
                    e_items.len() + a_items.len() + t_items.len() + b_items.len() <= usize::MAX,
                    efull.0.len() - old(self).entregas@.len() <= e_items.len(),
                    afull.0.len() - old(self).albums@.len() <= a_items.len(),
                    tfull.0.len() - old(self).tracks@.len() <= t_items.len(),
                    next_b == old(self).next_batch_id + i,
                    bfull == batch_pass(old(self).batches@, old(self).next_batch_id, b_items),
                    batch_pass(old(self).batches@ + new_batches@, next_b, b_items.skip(i as int))
                        == (bfull.0, bfull.1),
                    fault_at matches Some(k) ==> inserts_done <= k,
                    old(self).entregas@ + new_entregas@ == efull.0,
                    next_e == efull.1,
                    emap@ == efull.2,
                    efull == entrega_pass(
                        old(self).entregas@,
                        old(self).next_entrega_id,
                        e_items,
                    ),
                    old(self).albums@ + new_albums@ == afull.0,
                    next_a == afull.1,
                    amap@ == afull.2,
                    afull == album_pass(old(self).albums@, old(self).next_album_id, a_items),
                    old(self).tracks@ + new_tracks@ == tfull.0,
                    next_t == tfull.1,
                    tfull == track_pass(
                        old(self).tracks@,
                        old(self).next_track_id,
                        t_items,
                        efull.2,
                        afull.2,
                    ),
                decreases items.len() - i,
            {
                let ghost cur = old(self).batches@ + new_batches@;
                proof {
                    assert(b_items.skip(i as int)[0] == b_items[i as int]);
                    assert(b_items.skip(i as int).drop_first() =~= b_items.skip(i as int + 1));
                }
                let item = &items[i];
                if let Some(k) = fault_at {
                    if inserts_done == k {
                        return Err(StoreError::Storage);
                    }
                }
                let row = Batch {
                    id: next_b,
                    name: item.name.clone(),
                    created_at: item.created_at.clone(),
                };
                new_batches.push(row);
                proof {
                    assert(old(self).batches@ + new_batches@ =~= cur.push(row));
                }
                next_b = next_b + 1;
                inserts_done = inserts_done + 1;
                i = i + 1;
            }
            proof {
                assert(b_items.skip(i as int) =~= Seq::<NewBatch>::empty());
            }
        }
        proof {
            assert(old(self).batches@ + new_batches@ =~= bfull.0);
            assert(next_b == bfull.1);
            assert(fault_at matches Some(k) ==> k >= import_inserts(*old(self), *payload));
        }

        // Commit: every staged row reaches the store together.
        let counts = ImportCounts {
            entregas_created: new_entregas.len(),
            albums_created: new_albums.len(),
            tracks_created: new_tracks.len(),
        };
        self.next_entrega_id = next_e;
        self.entregas.append(&mut new_entregas);
        self.next_album_id = next_a;
        self.albums.append(&mut new_albums);
        self.next_track_id = next_t;
        self.tracks.append(&mut new_tracks);
        self.next_batch_id = next_b;
        self.batches.append(&mut new_batches);
        proof {
            lemma_entrega_pass_wf(old(self).entregas@, old(self).next_entrega_id, e_items);
            lemma_album_pass_wf(old(self).albums@, old(self).next_album_id, a_items);
            lemma_track_pass_wf(
                old(self).tracks@,
                old(self).next_track_id,
                t_items,
                efull.2,
                afull.2,
            );
            lemma_batch_pass_wf(old(self).batches@, old(self).next_batch_id, b_items);
        }
        Ok(counts)
    }
}

/// The rows a seed run inserts for its tracks: each record becomes a row
/// with a fresh id, referencing the single seeded entrega and no album.
pub open spec fn seeded_tracks(next: i64, entrega_id: i64, items: Seq<NewTrack>) -> Seq<Track> {
    Seq::new(
        items.len(),
        |j: int|
            Track {
                id: (next + j) as i64,
                title: items[j].title,
                artist_name: items[j].artist_name,
                album_id: None,
                duration_seconds: items[j].duration_seconds,
                bpm: items[j].bpm,
                tone: items[j].tone,
                position: items[j].position,
                score: items[j].score,
                entrega_id: Some(entrega_id),
                created_at: items[j].created_at,
            },
    )
}

impl Store {
    /// Import a payload with no storage fault: the four passes commit as
    /// one unit and the creation counts come back.
    pub fn import(&mut self, payload: &ImportPayload) -> (c: ImportCounts)
        requires
            old(self).wf(),
            old(self).next_entrega_id + opt_seq(payload.entregas).len() <= i64::MAX,
            old(self).next_album_id + opt_seq(payload.albums).len() <= i64::MAX,
            old(self).next_track_id + opt_seq(payload.tracks).len() <= i64::MAX,
            old(self).next_batch_id + opt_seq(payload.batches).len() <= i64::MAX,
            opt_seq(payload.entregas).len() + opt_seq(payload.albums).len() + opt_seq(
                payload.tracks,
            ).len() + opt_seq(payload.batches).len() <= usize::MAX,
        ensures
            final(self).wf(),
            import_applied(*old(self), *final(self), *payload),
            c.entregas_created == entregas_created(*old(self), *payload),
            c.albums_created == albums_created(*old(self), *payload),
            c.tracks_created == tracks_created(*old(self), *payload),
    {
        match self.import_with_fault(payload, None) {
            Ok(c) => c,
            Err(_) => {
                proof {
                    assert(false);
                }
                ImportCounts { entregas_created: 0, albums_created: 0, tracks_created: 0 }
            },
        }
    }

    /// First-run seeding, coarsely idempotent: when any entrega exists at
    /// all, the store is left untouched; otherwise the one given entrega is
    /// inserted and every given track is inserted unconditionally, each
    /// referencing that entrega and no album. Returns whether it seeded.
    pub fn seed(&mut self, entrega: &NewEntrega, tracks: &Vec<NewTrack>) -> (seeded: bool)
        requires
            old(self).wf(),
            old(self).next_entrega_id < i64::MAX,
            old(self).next_track_id + tracks@.len() <= i64::MAX,
        ensures
            final(self).wf(),
            seeded == (old(self).entregas@.len() == 0),
            !seeded ==> *final(self) == *old(self),
            seeded ==> ({
                let eid = old(self).next_entrega_id;
                &&& final(self).entregas@ == old(self).entregas@.push(
                    Entrega {
                        id: eid,
                        name: entrega.name,
                        batch_id: entrega.batch_id,
                        created_at: entrega.created_at,
                    },
                )
                &&& final(self).next_entrega_id == eid + 1
                &&& final(self).tracks@ == old(self).tracks@ + seeded_tracks(
                    old(self).next_track_id,
                    eid,
                    tracks@,
                )
                &&& final(self).next_track_id == old(self).next_track_id + tracks@.len()
                &&& artists_same(*final(self), *old(self))
                &&& crate::store::albums_same(*final(self), *old(self))
                &&& crate::store::batches_same(*final(self), *old(self))
            }),
    {
        if self.entregas.len() > 0 {
            return false;
        }
        let eid = self.next_entrega_id;
        let erow = Entrega {
            id: eid,
            name: entrega.name.clone(),
            batch_id: entrega.batch_id,
            created_at: entrega.created_at.clone(),
        };
        self.entregas.push(erow);
        self.next_entrega_id = self.next_entrega_id + 1;
        proof {
            assert(self.tracks@ =~= old(self).tracks@ + seeded_tracks(
                old(self).next_track_id,
                eid,
                tracks@,
            ).take(0));
        }
        let mut i: usize = 0;
        while i < tracks.len()
            invariant
                old(self).wf(),
                old(self).entregas@.len() == 0,
                old(self).next_entrega_id < i64::MAX,
                old(self).next_track_id + tracks@.len() <= i64::MAX,
                i <= tracks.len(),
                eid == old(self).next_entrega_id,
                self.entregas@ == old(self).entregas@.push(
                    Entrega {
                        id: eid,
                        name: entrega.name,
                        batch_id: entrega.batch_id,
                        created_at: entrega.created_at,
                    },
                ),
                self.next_entrega_id == eid + 1,
                wf_entregas(self.entregas@, self.next_entrega_id),
                self.tracks@ == old(self).tracks@ + seeded_tracks(
                    old(self).next_track_id,
                    eid,
                    tracks@,
                ).take(i as int),
                self.next_track_id == old(self).next_track_id + i,
                wf_tracks(self.tracks@, self.next_track_id),
                artists_same(*self, *old(self)),
                crate::store::albums_same(*self, *old(self)),
                crate::store::batches_same(*self, *old(self)),
            decreases tracks.len() - i,
        {
            let t = &tracks[i];
            let row = Track {
                id: self.next_track_id,
                title: t.title.clone(),
                artist_name: t.artist_name.clone(),
                album_id: None,
                duration_seconds: t.duration_seconds,
                bpm: t.bpm,
                tone: t.tone.clone(),
                position: t.position.clone(),
                score: t.score.clone(),
                entrega_id: Some(eid),
                created_at: t.created_at.clone(),
            };
            self.tracks.push(row);
            proof {
                let all = seeded_tracks(old(self).next_track_id, eid, tracks@);
                assert(all[i as int] == row);
                assert(self.tracks@ =~= old(self).tracks@ + all.take(i as int + 1));
            }
            self.next_track_id = self.next_track_id + 1;
            i = i + 1;
        }
        proof {
            assert(seeded_tracks(old(self).next_track_id, eid, tracks@).take(i as int)
                =~= seeded_tracks(old(self).next_track_id, eid, tracks@));
        }
        true
    }
}

/// A 1-based payload position resolved through this run's map.
fn resolve_ref(map: &Vec<i64>, pos: Option<i64>) -> (r: Option<i64>)
    ensures
        r == resolve_pos(map@, pos),
{
    match pos {
        Some(p) => {
            if p >= 1 && (p as u64) <= (map.len() as u64) {
                Some(map[(p - 1) as usize])
            } else {
                None
            }
        },
        None => None,
    }
}

} // verus!
