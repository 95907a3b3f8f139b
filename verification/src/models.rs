//! The entity rows of the catalog, the transient record shapes used to
//! create them, and the bulk-import payload.
//!
//! All identifiers are store-assigned 64-bit integers. `created_at` is an
//! opaque timestamp string supplied by the caller and passed through
//! unvalidated. A track's `bpm` is a decimal column in the store; here it is
//! held exactly as an integer count of thousandths of a beat per minute.

use vstd::prelude::*;

verus! {

/// A stored artist row. Artists are read-only on this surface.
pub struct Artist {
    pub id: i64,
    pub name: String,
    pub country: Option<String>,
    pub created_at: String,
}

/// A stored album row. `title` is the natural key used for import dedup.
pub struct Album {
    pub id: i64,
    pub title: String,
    pub artist_id: Option<i64>,
    pub release_year: Option<i64>,
    pub label: Option<String>,
    pub format: Option<String>,
    pub country: Option<String>,
    pub genre: Option<String>,
    pub style: Option<String>,
    pub created_at: String,
}

/// A stored track row. The dedup key is `(title, artist_name, entrega_id)`.
pub struct Track {
    pub id: i64,
    pub title: String,
    pub artist_name: String,
    pub album_id: Option<i64>,
    pub duration_seconds: Option<i64>,
    /// Beats per minute, in thousandths (the store's decimal column).
    pub bpm: Option<i64>,
    pub tone: Option<String>,
    /// Free-text slot label such as "A1" or "B2".
    pub position: Option<String>,
    pub score: Option<String>,
    pub entrega_id: Option<i64>,
    pub created_at: String,
}

/// A stored batch row: a named top-level grouping of entregas.
pub struct Batch {
    pub id: i64,
    pub name: String,
    pub created_at: String,
}

/// A stored entrega row: a named delivery grouping of tracks.
/// `name` is the natural key used for import dedup.
pub struct Entrega {
    pub id: i64,
    pub name: String,
    pub batch_id: Option<i64>,
    pub created_at: String,
}

/// Fields for creating or replacing an album row.
pub struct NewAlbum {
    pub title: String,
    pub artist_id: Option<i64>,
    pub release_year: Option<i64>,
    pub label: Option<String>,
    pub format: Option<String>,
    pub country: Option<String>,
    pub genre: Option<String>,
    pub style: Option<String>,
    pub created_at: String,
}

/// Fields for creating or replacing a track row. In an import payload,
/// `album_id` and `entrega_id` are 1-based positions into the payload's own
/// album and entrega sequences, not store identifiers.
pub struct NewTrack {
    pub title: String,
    pub artist_name: String,
    pub album_id: Option<i64>,
    pub duration_seconds: Option<i64>,
    /// Beats per minute, in thousandths (the store's decimal column).
    pub bpm: Option<i64>,
    pub tone: Option<String>,
    pub position: Option<String>,
    pub score: Option<String>,
    pub entrega_id: Option<i64>,
    pub created_at: String,
}

/// Fields for creating or replacing a batch row.
pub struct NewBatch {
    pub name: String,
    pub created_at: String,
}

/// Fields for creating or replacing an entrega row. `batch_id`, where
/// present, is a real store identifier, never a payload position.
pub struct NewEntrega {
    pub name: String,
    pub batch_id: Option<i64>,
    pub created_at: String,
}

/// A bulk-import payload: optional ordered sequences of records. Tracks
/// reference entregas and albums by their 1-based position in this same
/// payload, because the payload is authored before any identifiers exist.
pub struct ImportPayload {
    pub albums: Option<Vec<NewAlbum>>,
    pub tracks: Option<Vec<NewTrack>>,
    pub batches: Option<Vec<NewBatch>>,
    pub entregas: Option<Vec<NewEntrega>>,
}

/// Why an article request was refused.
#[derive(Debug)]
pub enum ArticleError {
    /// The filename failed the path-traversal guard; storage was never
    /// touched.
    BadRequest,
    /// No article file with that name exists.
    NotFound,
}

/// Why a store operation did not go through.
#[derive(Debug)]
pub enum StoreError {
    /// An update named an id that no row has.
    NotFound,
    /// A read or write against the store failed.
    Storage,
}

/// The sequence under an optional payload section; absent means empty.
pub open spec fn opt_seq<T>(o: Option<Vec<T>>) -> Seq<T> {
    match o {
        Option::Some(v) => v@,
        Option::None => Seq::empty(),
    }
}

} // verus!
