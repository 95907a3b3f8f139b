//! The laws of the importer: idempotence of a repeated import, uniqueness
//! of track dedup keys, and stability of name resolution.

use vstd::prelude::*;

use crate::importer::{album_pass, albums_created, batch_pass, entrega_pass, entregas_created,
    has_track_key, import_applied, lookup_album_id, lookup_entrega_id, resolve_pos, track_pass,
    tracks_created};
use crate::models::{Album, Entrega, ImportPayload, NewAlbum, NewEntrega, NewTrack, Track,
    opt_seq};
use crate::store::{Store, artists_same};

verus! {

/// No two track rows share a dedup key `(title, artist_name, entrega_id)`.
pub open spec fn unique_track_keys(rows: Seq<Track>) -> bool {
    forall|i: int, j: int|
        #![trigger rows[i], rows[j]]
        0 <= i < j < rows.len() ==> !(rows[i].title@ == rows[j].title@
            && rows[i].artist_name@ == rows[j].artist_name@ && rows[i].entrega_id
            == rows[j].entrega_id)
}

/// A name that already resolves keeps resolving to the same id across an
/// entrega pass: the pass only adds rows whose names were absent when they
/// were added.
proof fn lemma_entrega_lookup_preserved(
    rows: Seq<Entrega>,
    next: i64,
    items: Seq<NewEntrega>,
    name: Seq<char>,
    id: i64,
)
    requires
        lookup_entrega_id(rows, name) == Some(id),
    ensures
        lookup_entrega_id(entrega_pass(rows, next, items).0, name) == Some(id),
    decreases items.len(),
{
    if items.len() > 0 {
        let item = items[0];
        let hit = lookup_entrega_id(rows, item.name@);
        if hit is Some {
            lemma_entrega_lookup_preserved(rows, next, items.drop_first(), name, id);
        } else {
            let row = Entrega {
                id: next,
                name: item.name,
                batch_id: item.batch_id,
                created_at: item.created_at,
            };
            let rows1 = rows.push(row);
            assert(row.name@ != name);
            assert(rows1.drop_last() =~= rows);
            assert(lookup_entrega_id(rows1, name) == Some(id));
            lemma_entrega_lookup_preserved(rows1, (next + 1) as i64, items.drop_first(), name, id);
        }
    }
}

/// After an entrega pass, every payload record's name resolves to exactly
/// the id its payload position was mapped to.
pub proof fn lemma_entrega_pass_resolves(rows: Seq<Entrega>, next: i64, items: Seq<NewEntrega>)
    ensures
        forall|k: int|
            0 <= k < items.len() ==> lookup_entrega_id(
                entrega_pass(rows, next, items).0,
                #[trigger] items[k].name@,
            ) == Some(entrega_pass(rows, next, items).2[k]),
    decreases items.len(),
{
    if items.len() > 0 {
        let item = items[0];
        let hit = lookup_entrega_id(rows, item.name@);
        let row = Entrega {
            id: next,
            name: item.name,
            batch_id: item.batch_id,
            created_at: item.created_at,
        };
        let rows1 = if hit is Some {
            rows
        } else {
            rows.push(row)
        };
        let next1 = if hit is Some {
            next
        } else {
            (next + 1) as i64
        };
        let id0 = match hit {
            Some(found) => found,
            None => next,
        };
        if hit is None {
            assert(rows1.last() == row);
        }
        assert(lookup_entrega_id(rows1, item.name@) == Some(id0));
        lemma_entrega_lookup_preserved(rows1, next1, items.drop_first(), item.name@, id0);
        lemma_entrega_pass_resolves(rows1, next1, items.drop_first());
        let full = entrega_pass(rows, next, items);
        let rest = entrega_pass(rows1, next1, items.drop_first());
        crate::importer::lemma_entrega_pass_len(rows1, next1, items.drop_first());
        assert(full.0 == rest.0 && full.2 == seq![id0] + rest.2);
        assert forall|k: int| 0 <= k < items.len() implies lookup_entrega_id(
            entrega_pass(rows, next, items).0,
            #[trigger] items[k].name@,
        ) == Some(entrega_pass(rows, next, items).2[k]) by {
            if k == 0 {
                assert(full.2[0] == id0);
            } else {
                assert(items.drop_first()[k - 1] == items[k]);
                assert(lookup_entrega_id(rest.0, items.drop_first()[k - 1].name@) == Some(
                    rest.2[k - 1],
                ));
                assert(full.2[k] == rest.2[k - 1]);
            }
        }
    }
}

/// An entrega pass whose every record already resolves changes nothing:
/// no insert, no counter movement, and the map repeats the resolutions.
proof fn lemma_entrega_pass_stable(
    rows: Seq<Entrega>,
    next: i64,
    items: Seq<NewEntrega>,
    ids: Seq<i64>,
)
    requires
        ids.len() == items.len(),
        forall|k: int|
            0 <= k < items.len() ==> lookup_entrega_id(rows, #[trigger] items[k].name@) == Some(
                ids[k],
            ),
    ensures
        entrega_pass(rows, next, items) == (rows, next, ids),
    decreases items.len(),
{
    if items.len() == 0 {
        assert(ids =~= Seq::<i64>::empty());
    } else {
        assert(lookup_entrega_id(rows, items[0].name@) == Some(ids[0]));
        assert(forall|k: int|
            0 <= k < items.drop_first().len() ==> lookup_entrega_id(
                rows,
                #[trigger] items.drop_first()[k].name@,
            ) == Some(ids.drop_first()[k]));
        lemma_entrega_pass_stable(rows, next, items.drop_first(), ids.drop_first());
        assert(seq![ids[0]] + ids.drop_first() =~= ids);
    }
}

/// A title that already resolves keeps resolving to the same id across an
/// album pass.
proof fn lemma_album_lookup_preserved(
    rows: Seq<Album>,
    next: i64,
    items: Seq<NewAlbum>,
    title: Seq<char>,
    id: i64,
)
    requires
        lookup_album_id(rows, title) == Some(id),
    ensures
        lookup_album_id(album_pass(rows, next, items).0, title) == Some(id),
    decreases items.len(),
{
    if items.len() > 0 {
        let item = items[0];
        let hit = lookup_album_id(rows, item.title@);
        if hit is Some {
            lemma_album_lookup_preserved(rows, next, items.drop_first(), title, id);
        } else {
            let row = Album {
                id: next,
                title: item.title,
                artist_id: item.artist_id,
                release_year: item.release_year,
                label: item.label,
                format: item.format,
                country: item.country,
                genre: item.genre,
                style: item.style,
                created_at: item.created_at,
            };
            let rows1 = rows.push(row);
            assert(row.title@ != title);
            assert(rows1.drop_last() =~= rows);
            assert(lookup_album_id(rows1, title) == Some(id));
            lemma_album_lookup_preserved(rows1, (next + 1) as i64, items.drop_first(), title, id);
        }
    }
}

/// After an album pass, every payload record's title resolves to exactly
/// the id its payload position was mapped to.
pub proof fn lemma_album_pass_resolves(rows: Seq<Album>, next: i64, items: Seq<NewAlbum>)
    ensures
        forall|k: int|
            0 <= k < items.len() ==> lookup_album_id(
                album_pass(rows, next, items).0,
                #[trigger] items[k].title@,
            ) == Some(album_pass(rows, next, items).2[k]),
    decreases items.len(),
{
    if items.len() > 0 {
        let item = items[0];
        let hit = lookup_album_id(rows, item.title@);
        let row = Album {
            id: next,
            title: item.title,
            artist_id: item.artist_id,
            release_year: item.release_year,
            label: item.label,
            format: item.format,
            country: item.country,
            genre: item.genre,
            style: item.style,
            created_at: item.created_at,
        };
        let rows1 = if hit is Some {
            rows
        } else {
            rows.push(row)
        };
        let next1 = if hit is Some {
            next
        } else {
            (next + 1) as i64
        };
        let id0 = match hit {
            Some(found) => found,
            None => next,
        };
        if hit is None {
            assert(rows1.last() == row);
        }
        assert(lookup_album_id(rows1, item.title@) == Some(id0));
        lemma_album_lookup_preserved(rows1, next1, items.drop_first(), item.title@, id0);
        lemma_album_pass_resolves(rows1, next1, items.drop_first());
        let full = album_pass(rows, next, items);
        let rest = album_pass(rows1, next1, items.drop_first());
        crate::importer::lemma_album_pass_len(rows1, next1, items.drop_first());
        assert(full.0 == rest.0 && full.2 == seq![id0] + rest.2);
        assert forall|k: int| 0 <= k < items.len() implies lookup_album_id(
            album_pass(rows, next, items).0,
            #[trigger] items[k].title@,
        ) == Some(album_pass(rows, next, items).2[k]) by {
            if k == 0 {
                assert(full.2[0] == id0);
            } else {
                assert(items.drop_first()[k - 1] == items[k]);
                assert(lookup_album_id(rest.0, items.drop_first()[k - 1].title@) == Some(
                    rest.2[k - 1],
                ));
                assert(full.2[k] == rest.2[k - 1]);
            }
        }
    }
}

/// An album pass whose every record already resolves changes nothing.
proof fn lemma_album_pass_stable(rows: Seq<Album>, next: i64, items: Seq<NewAlbum>, ids: Seq<i64>)
    requires
        ids.len() == items.len(),
        forall|k: int|
            0 <= k < items.len() ==> lookup_album_id(rows, #[trigger] items[k].title@) == Some(
                ids[k],
            ),
    ensures
        album_pass(rows, next, items) == (rows, next, ids),
    decreases items.len(),
{
    if items.len() == 0 {
        assert(ids =~= Seq::<i64>::empty());
    } else {
        assert(lookup_album_id(rows, items[0].title@) == Some(ids[0]));
        assert(forall|k: int|
            0 <= k < items.drop_first().len() ==> lookup_album_id(
                rows,
                #[trigger] items.drop_first()[k].title@,
            ) == Some(ids.drop_first()[k]));
        lemma_album_pass_stable(rows, next, items.drop_first(), ids.drop_first());
        assert(seq![ids[0]] + ids.drop_first() =~= ids);
    }
}

/// A dedup key already present stays present across a track pass: the
/// pass only appends.
proof fn lemma_track_key_preserved(
    rows: Seq<Track>,
    next: i64,
    items: Seq<NewTrack>,
    emap: Seq<i64>,
    amap: Seq<i64>,
    title: Seq<char>,
    artist: Seq<char>,
    entrega_id: Option<i64>,
)
    requires
        has_track_key(rows, title, artist, entrega_id),
    ensures
        has_track_key(track_pass(rows, next, items, emap, amap).0, title, artist, entrega_id),
    decreases items.len(),
{
    if items.len() > 0 {
        let item = items[0];
        let eid = resolve_pos(emap, item.entrega_id);
        if has_track_key(rows, item.title@, item.artist_name@, eid) {
            lemma_track_key_preserved(
                rows,
                next,
                items.drop_first(),
                emap,
                amap,
                title,
                artist,
                entrega_id,
            );
        } else {
            let rows1 = rows.push(crate::importer::resolved_track(item, next, emap, amap));
            let w = choose|i: int|
                0 <= i < rows.len() && #[trigger] rows[i].title@ == title && rows[i].artist_name@
                    == artist && rows[i].entrega_id == entrega_id;
            assert(rows1[w] == rows[w]);
            assert(has_track_key(rows1, title, artist, entrega_id));
            lemma_track_key_preserved(
                rows1,
                (next + 1) as i64,
                items.drop_first(),
                emap,
                amap,
                title,
                artist,
                entrega_id,
            );
        }
    }
}

/// After a track pass, every payload record's dedup key — resolved through
/// the run's entrega map — is present in the table, whether the record was
/// inserted or skipped as a duplicate.
pub proof fn lemma_track_pass_covers(
    rows: Seq<Track>,
    next: i64,
    items: Seq<NewTrack>,
    emap: Seq<i64>,
    amap: Seq<i64>,
)
    ensures
        forall|k: int|
            0 <= k < items.len() ==> has_track_key(
                track_pass(rows, next, items, emap, amap).0,
                (#[trigger] items[k]).title@,
                items[k].artist_name@,
                resolve_pos(emap, items[k].entrega_id),
            ),
    decreases items.len(),
{
    if items.len() > 0 {
        let item = items[0];
        let eid = resolve_pos(emap, item.entrega_id);
        let row = crate::importer::resolved_track(item, next, emap, amap);
        let rows1 = if has_track_key(rows, item.title@, item.artist_name@, eid) {
            rows
        } else {
            rows.push(row)
        };
        let next1 = if has_track_key(rows, item.title@, item.artist_name@, eid) {
            next
        } else {
            (next + 1) as i64
        };
        if !has_track_key(rows, item.title@, item.artist_name@, eid) {
            assert(rows1[rows.len() as int] == row);
            assert(rows1[rows.len() as int].title@ == item.title@ && rows1[rows.len()
                as int].artist_name@ == item.artist_name@ && rows1[rows.len()
                as int].entrega_id == eid);
        }
        assert(has_track_key(rows1, item.title@, item.artist_name@, eid));
        lemma_track_key_preserved(
            rows1,
            next1,
            items.drop_first(),
            emap,
            amap,
            item.title@,
            item.artist_name@,
            eid,
        );
        lemma_track_pass_covers(rows1, next1, items.drop_first(), emap, amap);
        assert forall|k: int| 0 <= k < items.len() implies has_track_key(
            track_pass(rows, next, items, emap, amap).0,
            (#[trigger] items[k]).title@,
            items[k].artist_name@,
            resolve_pos(emap, items[k].entrega_id),
        ) by {
            if k > 0 {
                assert(items.drop_first()[k - 1] == items[k]);
            }
        }
    }
}

/// A track pass whose every record's resolved key is already present
/// changes nothing.
proof fn lemma_track_pass_stable(
    rows: Seq<Track>,
    next: i64,
    items: Seq<NewTrack>,
    emap: Seq<i64>,
    amap: Seq<i64>,
)
    requires
        forall|k: int|
            0 <= k < items.len() ==> has_track_key(
                rows,
                (#[trigger] items[k]).title@,
                items[k].artist_name@,
                resolve_pos(emap, items[k].entrega_id),
            ),
    ensures
        track_pass(rows, next, items, emap, amap) == (rows, next),
    decreases items.len(),
{
    if items.len() > 0 {
        assert(has_track_key(
            rows,
            items[0].title@,
            items[0].artist_name@,
            resolve_pos(emap, items[0].entrega_id),
        ));
        assert(forall|k: int|
            0 <= k < items.drop_first().len() ==> has_track_key(
                rows,
                (#[trigger] items.drop_first()[k]).title@,
                items.drop_first()[k].artist_name@,
                resolve_pos(emap, items.drop_first()[k].entrega_id),
            ));
        lemma_track_pass_stable(rows, next, items.drop_first(), emap, amap);
    }
}

/// Track dedup: a pass never creates two rows with the same dedup key.
/// If the table's keys are pairwise distinct before an import, they are
/// pairwise distinct after it — in particular, two payload records with
/// the same `(title, artist_name, entrega_id)` end as one stored row.
pub proof fn lemma_track_pass_dedup(
    rows: Seq<Track>,
    next: i64,
    items: Seq<NewTrack>,
    emap: Seq<i64>,
    amap: Seq<i64>,
)
    requires
        unique_track_keys(rows),
    ensures
        unique_track_keys(track_pass(rows, next, items, emap, amap).0),
    decreases items.len(),
{
    if items.len() > 0 {
        let item = items[0];
        let eid = resolve_pos(emap, item.entrega_id);
        if has_track_key(rows, item.title@, item.artist_name@, eid) {
            lemma_track_pass_dedup(rows, next, items.drop_first(), emap, amap);
        } else {
            let row = crate::importer::resolved_track(item, next, emap, amap);
            let rows1 = rows.push(row);
            assert forall|i: int, j: int|
                #![trigger rows1[i], rows1[j]]
                0 <= i < j < rows1.len() implies !(rows1[i].title@ == rows1[j].title@
                && rows1[i].artist_name@ == rows1[j].artist_name@ && rows1[i].entrega_id
                == rows1[j].entrega_id) by {
                if j == rows.len() {
                    assert(rows1[i] == rows[i]);
                    assert(rows1[j] == row);
                    if rows[i].title@ == row.title@ && rows[i].artist_name@ == row.artist_name@
                        && rows[i].entrega_id == row.entrega_id {
                        assert(has_track_key(rows, item.title@, item.artist_name@, eid));
                    }
                } else {
                    assert(rows1[i] == rows[i] && rows1[j] == rows[j]);
                }
            }
            lemma_track_pass_dedup(rows1, (next + 1) as i64, items.drop_first(), emap, amap);
        }
    }
}

/// Importing a store that holds no duplicate track keys never introduces
/// one.
pub proof fn lemma_import_keeps_unique_track_keys(s0: Store, s1: Store, p: ImportPayload)
    requires
        unique_track_keys(s0.tracks@),
        import_applied(s0, s1, p),
    ensures
        unique_track_keys(s1.tracks@),
{
    lemma_track_pass_dedup(
        s0.tracks@,
        s0.next_track_id,
        opt_seq(p.tracks),
        crate::importer::entrega_map(s0, p),
        crate::importer::album_map(s0, p),
    );
}

/// Idempotence: importing the same payload a second time — against the
/// store the first import produced — creates nothing and leaves every
/// table exactly as the first import left it. (Batches are excluded: they
/// are inserted unconditionally, so a payload with batch records grows the
/// batch table on every run.)
pub proof fn lemma_import_idempotent(s0: Store, s1: Store, s2: Store, p: ImportPayload)
    requires
        import_applied(s0, s1, p),
        import_applied(s1, s2, p),
        opt_seq(p.batches).len() == 0,
    ensures
        entregas_created(s1, p) == 0,
        albums_created(s1, p) == 0,
        tracks_created(s1, p) == 0,
        s2.entregas@ == s1.entregas@ && s2.next_entrega_id == s1.next_entrega_id,
        s2.albums@ == s1.albums@ && s2.next_album_id == s1.next_album_id,
        s2.tracks@ == s1.tracks@ && s2.next_track_id == s1.next_track_id,
        s2.batches@ == s1.batches@ && s2.next_batch_id == s1.next_batch_id,
        artists_same(s2, s1),
{
    let e_items = opt_seq(p.entregas);
    let a_items = opt_seq(p.albums);
    let t_items = opt_seq(p.tracks);
    let efull1 = entrega_pass(s0.entregas@, s0.next_entrega_id, e_items);
    let afull1 = album_pass(s0.albums@, s0.next_album_id, a_items);

    crate::importer::lemma_entrega_pass_len(s0.entregas@, s0.next_entrega_id, e_items);
    lemma_entrega_pass_resolves(s0.entregas@, s0.next_entrega_id, e_items);
    lemma_entrega_pass_stable(s1.entregas@, s1.next_entrega_id, e_items, efull1.2);
    assert(entrega_pass(s1.entregas@, s1.next_entrega_id, e_items) == (
        s1.entregas@,
        s1.next_entrega_id,
        efull1.2,
    ));

    crate::importer::lemma_album_pass_len(s0.albums@, s0.next_album_id, a_items);
    lemma_album_pass_resolves(s0.albums@, s0.next_album_id, a_items);
    lemma_album_pass_stable(s1.albums@, s1.next_album_id, a_items, afull1.2);
    assert(album_pass(s1.albums@, s1.next_album_id, a_items) == (
        s1.albums@,
        s1.next_album_id,
        afull1.2,
    ));

    lemma_track_pass_covers(s0.tracks@, s0.next_track_id, t_items, efull1.2, afull1.2);
    lemma_track_pass_stable(s1.tracks@, s1.next_track_id, t_items, efull1.2, afull1.2);
    assert(track_pass(s1.tracks@, s1.next_track_id, t_items, efull1.2, afull1.2) == (
        s1.tracks@,
        s1.next_track_id,
    ));

    assert(batch_pass(s1.batches@, s1.next_batch_id, opt_seq(p.batches)) == (
        s1.batches@,
        s1.next_batch_id,
    ));
}

} // verus!
