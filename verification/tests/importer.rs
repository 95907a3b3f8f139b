use sonido_sigiloso::models::{ImportPayload, NewAlbum, NewBatch, NewEntrega, NewTrack, StoreError};
use sonido_sigiloso::store::Store;

fn ts() -> String {
    "2024-01-01T00:00:00Z".to_string()
}

fn new_entrega(name: &str) -> NewEntrega {
    NewEntrega { name: name.to_string(), batch_id: None, created_at: ts() }
}

fn new_album(title: &str) -> NewAlbum {
    NewAlbum {
        title: title.to_string(),
        artist_id: None,
        release_year: Some(2024),
        label: None,
        format: None,
        country: None,
        genre: None,
        style: None,
        created_at: ts(),
    }
}

fn new_track(title: &str, artist: &str, entrega_pos: Option<i64>, album_pos: Option<i64>) -> NewTrack {
    NewTrack {
        title: title.to_string(),
        artist_name: artist.to_string(),
        album_id: album_pos,
        duration_seconds: Some(200),
        bpm: Some(128_500),
        tone: None,
        position: Some("A1".to_string()),
        score: None,
        entrega_id: entrega_pos,
        created_at: ts(),
    }
}

fn payload(
    entregas: Vec<NewEntrega>,
    albums: Vec<NewAlbum>,
    tracks: Vec<NewTrack>,
) -> ImportPayload {
    ImportPayload {
        albums: Some(albums),
        tracks: Some(tracks),
        batches: None,
        entregas: Some(entregas),
    }
}

#[test]
fn import_idempotent() {
    let mut store = Store::new();
    let first = payload(
        vec![new_entrega("Entrega 1")],
        vec![new_album("Album 1")],
        vec![
            new_track("Song A", "Artist A", Some(1), Some(1)),
            new_track("Song B", "Artist B", Some(1), None),
        ],
    );
    let c1 = store.import(&first);
    assert_eq!(c1.entregas_created, 1);
    assert_eq!(c1.albums_created, 1);
    assert_eq!(c1.tracks_created, 2);

    let second = payload(
        vec![new_entrega("Entrega 1")],
        vec![new_album("Album 1")],
        vec![
            new_track("Song A", "Artist A", Some(1), Some(1)),
            new_track("Song B", "Artist B", Some(1), None),
        ],
    );
    let c2 = store.import(&second);
    assert_eq!(c2.entregas_created, 0);
    assert_eq!(c2.albums_created, 0);
    assert_eq!(c2.tracks_created, 0);
    assert_eq!(store.entregas.len(), 1);
    assert_eq!(store.albums.len(), 1);
    assert_eq!(store.tracks.len(), 2);
}

#[test]
fn positional_resolution() {
    let mut store = Store::new();
    let p = payload(
        vec![new_entrega("Entrega 1")],
        vec![],
        vec![new_track("Song A", "Artist A", Some(1), None)],
    );
    store.import(&p);
    let entrega_id = store.entregas[0].id;
    assert_eq!(store.tracks[0].entrega_id, Some(entrega_id));
}

#[test]
fn natural_key_dedup() {
    let mut store = Store::new();
    for i in 1..=6 {
        store.create_entrega(&new_entrega(&format!("Filler {}", i)));
    }
    let existing = store.create_entrega(&new_entrega("Entrega X"));
    assert_eq!(existing.id, 7);

    let p = payload(
        vec![new_entrega("Entrega X")],
        vec![],
        vec![new_track("Song A", "Artist A", Some(1), None)],
    );
    let c = store.import(&p);
    assert_eq!(c.entregas_created, 0);
    assert_eq!(store.entregas.len(), 7);
    assert_eq!(store.tracks[0].entrega_id, Some(7));
}

#[test]
fn duplicate_names_within_one_payload() {
    let mut store = Store::new();
    let p = payload(
        vec![new_entrega("Entrega 1"), new_entrega("Entrega 1")],
        vec![new_album("Album 1"), new_album("Album 1")],
        vec![
            new_track("Song A", "Artist A", Some(2), Some(2)),
        ],
    );
    let c = store.import(&p);
    assert_eq!(c.entregas_created, 1);
    assert_eq!(c.albums_created, 1);
    let entrega_id = store.entregas[0].id;
    let album_id = store.albums[0].id;
    assert_eq!(store.tracks[0].entrega_id, Some(entrega_id));
    assert_eq!(store.tracks[0].album_id, Some(album_id));
}

#[test]
fn track_dedup_tuple() {
    let mut store = Store::new();
    let p = payload(
        vec![new_entrega("Entrega 1")],
        vec![],
        vec![
            new_track("Song A", "Artist A", Some(1), None),
            new_track("Song A", "Artist A", Some(1), None),
        ],
    );
    let c = store.import(&p);
    assert_eq!(c.tracks_created, 1);
    assert_eq!(store.tracks.len(), 1);
}

#[test]
fn unresolvable_position_becomes_null() {
    let mut store = Store::new();
    let p = payload(
        vec![new_entrega("Entrega 1")],
        vec![],
        vec![new_track("Song A", "Artist A", Some(9), Some(3))],
    );
    store.import(&p);
    assert_eq!(store.tracks[0].entrega_id, None);
    assert_eq!(store.tracks[0].album_id, None);
}

#[test]
fn atomicity_under_storage_fault() {
    let mut store = Store::new();
    let p = payload(
        vec![new_entrega("Entrega 1")],
        vec![new_album("Album 1")],
        vec![
            new_track("Song 1", "Artist", Some(1), Some(1)),
            new_track("Song 2", "Artist", Some(1), Some(1)),
            new_track("Song 3", "Artist", Some(1), Some(1)),
            new_track("Song 4", "Artist", Some(1), Some(1)),
            new_track("Song 5", "Artist", Some(1), Some(1)),
        ],
    );
    // One entrega and one album are created first, so the third track is
    // insert number 4 of the run (counting from zero).
    let r = store.import_with_fault(&p, Some(4));
    assert!(matches!(r, Err(StoreError::Storage)));
    assert_eq!(store.tracks.len(), 0);
    assert_eq!(store.entregas.len(), 0);
    assert_eq!(store.albums.len(), 0);
    assert_eq!(store.next_track_id, 1);
    assert_eq!(store.next_entrega_id, 1);
    assert_eq!(store.next_album_id, 1);
}

#[test]
fn fault_past_the_last_insert_commits() {
    let mut store = Store::new();
    let p = payload(vec![new_entrega("Entrega 1")], vec![], vec![]);
    let r = store.import_with_fault(&p, Some(1));
    assert!(r.is_ok());
    assert_eq!(store.entregas.len(), 1);
}

#[test]
fn batches_insert_unconditionally() {
    let mut store = Store::new();
    let p = ImportPayload {
        albums: None,
        tracks: None,
        batches: Some(vec![NewBatch { name: "Lote 1".to_string(), created_at: ts() }]),
        entregas: None,
    };
    store.import(&p);
    let p2 = ImportPayload {
        albums: None,
        tracks: None,
        batches: Some(vec![NewBatch { name: "Lote 1".to_string(), created_at: ts() }]),
        entregas: None,
    };
    store.import(&p2);
    assert_eq!(store.batches.len(), 2);
    assert_eq!(store.batches[0].id, 1);
    assert_eq!(store.batches[1].id, 2);
}

#[test]
fn empty_payload_creates_nothing() {
    let mut store = Store::new();
    let p = ImportPayload { albums: None, tracks: None, batches: None, entregas: None };
    let c = store.import(&p);
    assert_eq!(c.entregas_created, 0);
    assert_eq!(c.albums_created, 0);
    assert_eq!(c.tracks_created, 0);
    assert_eq!(store.entregas.len(), 0);
}

#[test]
fn seed_only_on_empty_store() {
    let mut store = Store::new();
    let tracks = vec![
        new_track("Seed 1", "Artist", None, None),
        new_track("Seed 2", "Artist", None, None),
    ];
    let seeded = store.seed(&new_entrega("Seed Entrega"), &tracks);
    assert!(seeded);
    assert_eq!(store.entregas.len(), 1);
    assert_eq!(store.tracks.len(), 2);
    let eid = store.entregas[0].id;
    assert_eq!(store.tracks[0].entrega_id, Some(eid));
    assert_eq!(store.tracks[1].entrega_id, Some(eid));
    assert_eq!(store.tracks[0].album_id, None);

    let again = store.seed(&new_entrega("Seed Entrega"), &vec![new_track("Seed 3", "Artist", None, None)]);
    assert!(!again);
    assert_eq!(store.entregas.len(), 1);
    assert_eq!(store.tracks.len(), 2);
}
