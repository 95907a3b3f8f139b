use sonido_sigiloso::models::{NewAlbum, NewBatch, NewEntrega, NewTrack, StoreError};
use sonido_sigiloso::store::Store;

fn ts() -> String {
    "2024-01-01T00:00:00Z".to_string()
}

fn album(title: &str) -> NewAlbum {
    NewAlbum {
        title: title.to_string(),
        artist_id: None,
        release_year: Some(1999),
        label: Some("Label".to_string()),
        format: Some("LP".to_string()),
        country: Some("ES".to_string()),
        genre: Some("Electronic".to_string()),
        style: Some("Ambient".to_string()),
        created_at: ts(),
    }
}

fn track(title: &str, position: Option<&str>) -> NewTrack {
    NewTrack {
        title: title.to_string(),
        artist_name: "Artist".to_string(),
        album_id: None,
        duration_seconds: Some(180),
        bpm: Some(120_000),
        tone: Some("C".to_string()),
        position: position.map(|p| p.to_string()),
        score: None,
        entrega_id: None,
        created_at: ts(),
    }
}

#[test]
fn update_missing_album_is_not_found() {
    let mut store = Store::new();
    let r = store.update_album(42, &album("Anything"));
    assert!(matches!(r, Err(StoreError::NotFound)));
    assert_eq!(store.albums.len(), 0);
}

#[test]
fn update_album_replaces_every_field() {
    let mut store = Store::new();
    let created = store.create_album(&album("Before"));
    let replacement = NewAlbum {
        title: "After".to_string(),
        artist_id: Some(9),
        release_year: Some(2001),
        label: Some("Other".to_string()),
        format: Some("CD".to_string()),
        country: Some("DE".to_string()),
        genre: Some("Techno".to_string()),
        style: Some("Dub".to_string()),
        created_at: "2025-05-05T05:05:05Z".to_string(),
    };
    let updated = store.update_album(created.id, &replacement).unwrap();
    assert_eq!(updated.id, created.id);
    assert_eq!(updated.title, "After");
    let row = &store.albums[0];
    assert_eq!(row.title, "After");
    assert_eq!(row.artist_id, Some(9));
    assert_eq!(row.release_year, Some(2001));
    assert_eq!(row.label.as_deref(), Some("Other"));
    assert_eq!(row.format.as_deref(), Some("CD"));
    assert_eq!(row.country.as_deref(), Some("DE"));
    assert_eq!(row.genre.as_deref(), Some("Techno"));
    assert_eq!(row.style.as_deref(), Some("Dub"));
    assert_eq!(row.created_at, "2025-05-05T05:05:05Z");
}

#[test]
fn create_assigns_increasing_ids() {
    let mut store = Store::new();
    let a = store.create_album(&album("One"));
    let b = store.create_album(&album("Two"));
    assert_eq!(a.id, 1);
    assert_eq!(b.id, 2);
    assert_eq!(store.next_album_id, 3);
}

#[test]
fn update_track_and_batch_and_entrega() {
    let mut store = Store::new();
    let t = store.create_track(&track("Song", Some("A1")));
    let updated = store
        .update_track(t.id, &track("Song 2", Some("B2")))
        .unwrap();
    assert_eq!(updated.title, "Song 2");
    assert!(matches!(
        store.update_track(99, &track("Nope", None)),
        Err(StoreError::NotFound)
    ));

    let b = store.create_batch(&NewBatch { name: "Lote".to_string(), created_at: ts() });
    let ub = store
        .update_batch(b.id, &NewBatch { name: "Lote 2".to_string(), created_at: ts() })
        .unwrap();
    assert_eq!(ub.name, "Lote 2");
    assert!(matches!(
        store.update_batch(50, &NewBatch { name: "X".to_string(), created_at: ts() }),
        Err(StoreError::NotFound)
    ));

    let e = store.create_entrega(&NewEntrega {
        name: "Entrega".to_string(),
        batch_id: Some(b.id),
        created_at: ts(),
    });
    let ue = store
        .update_entrega(e.id, &NewEntrega {
            name: "Entrega 2".to_string(),
            batch_id: None,
            created_at: ts(),
        })
        .unwrap();
    assert_eq!(ue.name, "Entrega 2");
    assert!(matches!(
        store.update_entrega(50, &NewEntrega {
            name: "X".to_string(),
            batch_id: None,
            created_at: ts(),
        }),
        Err(StoreError::NotFound)
    ));
}

#[test]
fn list_tracks_orders_by_position_then_id() {
    let mut store = Store::new();
    let t1 = store.create_track(&track("First", Some("B1")));
    let t2 = store.create_track(&track("Second", Some("A1")));
    let t3 = store.create_track(&track("Third", None));
    let t4 = store.create_track(&track("Fourth", Some("A1")));
    let listed = store.list_tracks();
    let ids: Vec<i64> = listed.iter().map(|t| t.id).collect();
    // Absent positions first, then "A1" ties broken by id, then "B1".
    assert_eq!(ids, vec![t3.id, t2.id, t4.id, t1.id]);
}

#[test]
fn list_keeps_id_order() {
    let mut store = Store::new();
    store.create_album(&album("One"));
    store.create_album(&album("Two"));
    let listed = store.list_albums();
    assert_eq!(listed[0].id, 1);
    assert_eq!(listed[1].id, 2);
    assert_eq!(store.list_artists().len(), 0);
    assert_eq!(store.list_batches().len(), 0);
    assert_eq!(store.list_entregas().len(), 0);
}
