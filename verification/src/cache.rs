//! The cache on disk: what is written to it, and what is left of it after a scan.
//!
//! The cache is a database of a few tables. This module says which changes are made to
//! them, as a list of operations, and models the tables so that it can say what the
//! operations come to.

use vstd::hash_map::StringHashMap;
use vstd::prelude::*;

use crate::number::{
    decimal_string, digits_of, law_written_number_is_read_back, padded, push_padded, read_unsigned, unsigned_value,
};
use crate::people::{
    blob_of, clusters_of, copy_clusters, embedding_blob, from_little_endian, law_blob_holds_the_vector,
    lemma_bytes_of_vector, ClusterText, FaceCluster,
};
use crate::record::{
    cached_of, images, record_of, CachedImage, CachedImageRecord, CachedText, FileFingerprint, ImageRecord, ImageText,
};
use crate::search::VECTOR_DIMENSION;
use crate::text::{append_chars, chars_of, copy_optional, join, joined, optional_text, string_of, texts};
use crate::thumbnail::{decode_thumbnail_data_url, url_bytes};

verus! {

/// How many vectors are held at most before they are written.
pub const MAX_PENDING_EMBEDDINGS: usize = 50;

/// Turns what registering the vector extension gave back into an outcome.
pub fn register_sqlite_vec(code: i32) -> (result: Result<(), String>)
    ensures
        match result {
            Ok(()) => code == 0,
            Err(message) => code != 0 && message@ == "無法註冊 sqlite-vec SQLite 擴充功能（錯誤碼 "@ + padded(
                code as int,
                1,
            ) + "）。"@,
        },
{
    if code == 0 {
        return Ok(());
    }
    let mut message: Vec<char> = chars_of("無法註冊 sqlite-vec SQLite 擴充功能（錯誤碼 ");
    push_padded(&mut message, code as i64, 1);
    append_chars(&mut message, &chars_of("）。"));
    Err(string_of(&message))
}

// ---------------------------------------------------------------------------
// The tables
// ---------------------------------------------------------------------------

/// A row of the table of pictures.
pub struct ImageRow {
    pub root: Seq<char>,
    pub bytes: u64,
    pub modified_ns: Seq<char>,
    pub captured_at: Option<Seq<char>>,
    pub record: CachedText,
}

/// A row of the full-text index.
pub struct TextRow {
    pub root: Seq<char>,
    pub filename: Seq<char>,
    pub ocr_text: Seq<char>,
    pub people: Seq<char>,
}

/// A row of the table of thumbnails.
pub struct ThumbnailRow {
    pub root: Seq<char>,
    pub jpeg: Seq<u8>,
}

/// What a vector belongs to: a picture, by its path, or a group of faces.
pub struct VectorKey {
    pub kind: Seq<char>,
    pub root: Seq<char>,
    pub path: Seq<char>,
    pub group_id: Seq<char>,
}

/// What a folder and a path in it are looked up by.
pub struct SeenKey {
    pub root: Seq<char>,
    pub path: Seq<char>,
}

/// The tables of the cache.
pub struct CacheTables {
    pub images: Map<Seq<char>, ImageRow>,
    pub texts: Map<Seq<char>, TextRow>,
    pub thumbnails: Map<Seq<char>, ThumbnailRow>,
    pub vectors: Map<VectorKey, Seq<u8>>,
    pub states: Map<Seq<char>, Seq<ClusterText>>,
    pub migrated: Set<Seq<char>>,
    pub seen: Set<SeenKey>,
}

/// A change to the tables.
pub enum CacheOp {
    /// Forget which pictures of a folder were seen.
    ClearSeen { root: String },
    /// Forget the groups of faces of a folder.
    ClearState { root: String },
    /// Put the text of a picture into the full-text index, in place of what is there.
    PutText { path: String, root: String, filename: String, ocr_text: String, people: String },
    /// Put a picture into the table of pictures, in place of what is there.
    PutRecord {
        path: String,
        root: String,
        bytes: u64,
        modified_ns: String,
        captured_at: Option<String>,
        record: CachedImageRecord,
    },
    /// Note that a picture of a folder was seen.
    MarkSeen { root: String, path: String },
    /// Put a thumbnail into the table of thumbnails, in place of what is there.
    PutThumbnail { path: String, root: String, jpeg: Vec<u8> },
    /// Put a vector into the vector index, in place of what is there.
    PutVector { kind: String, root: String, path: String, group_id: String, blob: Vec<u8> },
    /// Take a vector out of the vector index.
    DropVector { kind: String, root: String, path: String, group_id: String },
    /// Take the texts of a folder's pictures that were not seen out of the full-text index.
    DropUnseenTexts { root: String },
    /// Take the pictures of a folder that were not seen out of the table of pictures.
    DropUnseenRecords { root: String },
    /// Take the thumbnails of a folder without a picture out of the table of thumbnails.
    DropOrphanThumbnails { root: String },
    /// Take the vectors of a folder's pictures without a picture out of the vector index.
    DropOrphanVectors { root: String },
    /// Take the vectors of a folder's groups of faces out of the vector index.
    DropFaceVectors { root: String },
    /// Keep the groups of faces of a folder.
    PutState { root: String, groups: Vec<FaceCluster> },
    /// Note that the vectors of a folder have been moved to the vector index.
    MarkMigrated { root: String },
}

/// What a change makes of the tables.
pub open spec fn apply(tables: CacheTables, op: CacheOp) -> CacheTables {
    match op {
        CacheOp::ClearSeen { root } => CacheTables {
            seen: tables.seen.filter(|key: SeenKey| key.root != root@),
            ..tables
        },
        CacheOp::ClearState { root } => CacheTables { states: tables.states.remove(root@), ..tables },
        CacheOp::PutText { path, root, filename, ocr_text, people } => CacheTables {
            texts: tables.texts.insert(
                path@,
                TextRow { root: root@, filename: filename@, ocr_text: ocr_text@, people: people@ },
            ),
            ..tables
        },
        CacheOp::PutRecord { path, root, bytes, modified_ns, captured_at, record } => CacheTables {
            images: tables.images.insert(
                path@,
                ImageRow {
                    root: root@,
                    bytes,
                    modified_ns: modified_ns@,
                    captured_at: optional_text(captured_at),
                    record: record@,
                },
            ),
            ..tables
        },
        CacheOp::MarkSeen { root, path } => CacheTables {
            seen: tables.seen.insert(SeenKey { root: root@, path: path@ }),
            ..tables
        },
        CacheOp::PutThumbnail { path, root, jpeg } => CacheTables {
            thumbnails: tables.thumbnails.insert(path@, ThumbnailRow { root: root@, jpeg: jpeg@ }),
            ..tables
        },
        CacheOp::PutVector { kind, root, path, group_id, blob } => CacheTables {
            vectors: tables.vectors.insert(
                VectorKey { kind: kind@, root: root@, path: path@, group_id: group_id@ },
                blob@,
            ),
            ..tables
        },
        CacheOp::DropVector { kind, root, path, group_id } => CacheTables {
            vectors: tables.vectors.remove(
                VectorKey { kind: kind@, root: root@, path: path@, group_id: group_id@ },
            ),
            ..tables
        },
        CacheOp::DropUnseenTexts { root } => CacheTables {
            texts: tables.texts.restrict(
                Set::new(
                    |path: Seq<char>|
                        tables.texts.contains_key(path) && (tables.texts[path].root != root@ || tables.seen.contains(
                            SeenKey { root: root@, path },
                        )),
                ),
            ),
            ..tables
        },
        CacheOp::DropUnseenRecords { root } => CacheTables {
            images: tables.images.restrict(
                Set::new(
                    |path: Seq<char>|
                        tables.images.contains_key(path) && (tables.images[path].root != root@
                            || tables.seen.contains(SeenKey { root: root@, path })),
                ),
            ),
            ..tables
        },
        CacheOp::DropOrphanThumbnails { root } => CacheTables {
            thumbnails: tables.thumbnails.restrict(
                Set::new(
                    |path: Seq<char>|
                        tables.thumbnails.contains_key(path) && (tables.thumbnails[path].root != root@ || has_picture(
                            tables,
                            root@,
                            path,
                        )),
                ),
            ),
            ..tables
        },
        CacheOp::DropOrphanVectors { root } => CacheTables {
            vectors: tables.vectors.restrict(
                Set::new(
                    |key: VectorKey|
                        tables.vectors.contains_key(key) && (key.kind != "clip"@ || key.root != root@ || has_picture(
                            tables,
                            root@,
                            key.path,
                        )),
                ),
            ),
            ..tables
        },
        CacheOp::DropFaceVectors { root } => CacheTables {
            vectors: tables.vectors.restrict(
                Set::new(
                    |key: VectorKey|
                        tables.vectors.contains_key(key) && (key.kind != "face"@ || key.root != root@),
                ),
            ),
            ..tables
        },
        CacheOp::PutState { root, groups } => CacheTables {
            states: tables.states.insert(root@, clusters_of(groups@)),
            ..tables
        },
        CacheOp::MarkMigrated { root } => CacheTables { migrated: tables.migrated.insert(root@), ..tables },
    }
}

/// There is a picture of a folder at a path.
pub open spec fn has_picture(tables: CacheTables, root: Seq<char>, path: Seq<char>) -> bool {
    tables.images.contains_key(path) && tables.images[path].root == root
}

/// What changes make of the tables, one after the other.
pub open spec fn apply_all(tables: CacheTables, ops: Seq<CacheOp>) -> CacheTables
    decreases ops.len(),
{
    if ops.len() == 0 {
        tables
    } else {
        apply(apply_all(tables, ops.drop_last()), ops.last())
    }
}

/// One change more.
proof fn lemma_apply_one_more(ops: Seq<CacheOp>, op: CacheOp)
    ensures
        forall|tables: CacheTables| #[trigger] apply_all(tables, ops.push(op)) == apply(apply_all(tables, ops), op),
{
    assert(ops.push(op).drop_last() =~= ops);
}

// ---------------------------------------------------------------------------
// Writing what a scan found
// ---------------------------------------------------------------------------

/// What is to be written for the pictures of a batch: the fingerprints of their files,
/// and the vectors of those that are new, or that they have none.
pub struct PendingWrites {
    fingerprints: StringHashMap<FileFingerprint>,
    embeddings: Vec<PendingEmbedding>,
}

/// The vector of a picture, by the bit patterns of its numbers, or that it has none.
pub struct PendingEmbedding {
    pub path: String,
    pub vector: Option<Vec<u32>>,
}

/// What a `PendingEmbedding` holds.
pub struct EmbeddingText {
    pub path: Seq<char>,
    pub vector: Option<Seq<u32>>,
}

impl View for PendingEmbedding {
    type V = EmbeddingText;

    open spec fn view(&self) -> EmbeddingText {
        EmbeddingText {
            path: self.path@,
            vector: match self.vector {
                Some(vector) => Some(vector@),
                None => None,
            },
        }
    }
}

/// What pending vectors hold.
pub open spec fn embeddings_of(embeddings: Seq<PendingEmbedding>) -> Seq<EmbeddingText> {
    embeddings.map_values(|embedding: PendingEmbedding| embedding@)
}

/// No path has two vectors.
pub open spec fn paths_differ(embeddings: Seq<EmbeddingText>) -> bool {
    forall|i: int, j: int|
        0 <= i < j < embeddings.len() ==> (#[trigger] embeddings[i]).path != (#[trigger] embeddings[j]).path
}

impl PendingWrites {
    /// The fingerprints by path.
    pub closed spec fn known(&self) -> Map<Seq<char>, FileFingerprint> {
        self.fingerprints@
    }

    /// The vectors, in the order in which they came.
    pub closed spec fn vectors(&self) -> Seq<EmbeddingText> {
        embeddings_of(self.embeddings@)
    }

    /// No path has two vectors.
    pub open spec fn well_formed(&self) -> bool {
        paths_differ(self.vectors())
    }

    /// Nothing to be written.
    pub fn new() -> (pending: PendingWrites)
        ensures
            pending.known() == Map::<Seq<char>, FileFingerprint>::empty(),
            pending.vectors() == Seq::<EmbeddingText>::empty(),
            pending.well_formed(),
    {
        let pending: PendingWrites = PendingWrites { fingerprints: StringHashMap::new(), embeddings: Vec::new() };
        assert(embeddings_of(pending.embeddings@) =~= Seq::<EmbeddingText>::empty());
        pending
    }

    /// How many pictures have a vector, or none, to be written.
    pub fn vector_count(&self) -> (count: usize)
        ensures
            count == self.vectors().len(),
    {
        self.embeddings.len()
    }

    /// Takes the fingerprint of a file in.
    pub fn add_fingerprint(&mut self, path: String, fingerprint: FileFingerprint)
        ensures
            final(self).known() == old(self).known().insert(path@, fingerprint),
            final(self).vectors() == old(self).vectors(),
    {
        self.fingerprints.insert(path, fingerprint);
    }

    /// Takes the vector of a picture in, or that it has none, in place of what was known.
    pub fn set_embedding(&mut self, path: String, vector: Option<Vec<u32>>)
        requires
            old(self).well_formed(),
        ensures
            final(self).well_formed(),
            final(self).known() == old(self).known(),
            final(self).vectors() == with_vector(
                old(self).vectors(),
                EmbeddingText {
                    path: path@,
                    vector: match vector {
                        Some(vector) => Some(vector@),
                        None => None,
                    },
                },
            ),
            final(self).vectors().len() <= old(self).vectors().len() + 1,
    {
        let ghost before = embeddings_of(self.embeddings@);
        let ghost added = (PendingEmbedding { path, vector })@;
        let count: usize = self.embeddings.len();
        for i in 0..count
            invariant
                count == self.embeddings@.len(),
                before == embeddings_of(self.embeddings@),
                paths_differ(before),
                self.known() == old(self).known(),
                before == old(self).vectors(),
                added == (PendingEmbedding { path, vector })@,
                forall|k: int| 0 <= k < i ==> (#[trigger] before[k]).path != path@,
        {
            assert(before[i as int] == self.embeddings@[i as int]@);
            if self.embeddings[i].path == path {
                self.embeddings[i].vector = vector;
                assert(embeddings_of(self.embeddings@) =~= before.update(i as int, added));
                proof {
                    lemma_with_vector_at(before, added, i as int);
                }
                return;
            }
        }
        self.embeddings.push(PendingEmbedding { path, vector });
        assert(embeddings_of(self.embeddings@) =~= before.push(added));
        proof {
            lemma_with_vector_new(before, added);
        }
    }

    /// Forgets what was to be written.
    pub fn clear(&mut self)
        ensures
            final(self).known() == Map::<Seq<char>, FileFingerprint>::empty(),
            final(self).vectors() == Seq::<EmbeddingText>::empty(),
            final(self).well_formed(),
    {
        self.fingerprints = StringHashMap::new();
        self.embeddings = Vec::new();
        assert(embeddings_of(self.embeddings@) =~= Seq::<EmbeddingText>::empty());
    }
}

/// The vectors with one more, in place of the one of the same path.
pub open spec fn with_vector(embeddings: Seq<EmbeddingText>, added: EmbeddingText) -> Seq<EmbeddingText> {
    if exists|k: int| 0 <= k < embeddings.len() && (#[trigger] embeddings[k]).path == added.path {
        embeddings.update(
            choose|k: int| 0 <= k < embeddings.len() && (#[trigger] embeddings[k]).path == added.path,
            added,
        )
    } else {
        embeddings.push(added)
    }
}

/// A vector takes the place of the one of the same path.
proof fn lemma_with_vector_at(embeddings: Seq<EmbeddingText>, added: EmbeddingText, at: int)
    requires
        paths_differ(embeddings),
        0 <= at < embeddings.len(),
        embeddings[at].path == added.path,
    ensures
        with_vector(embeddings, added) == embeddings.update(at, added),
        paths_differ(embeddings.update(at, added)),
{
    let chosen = choose|k: int| 0 <= k < embeddings.len() && (#[trigger] embeddings[k]).path == added.path;
    assert(0 <= chosen < embeddings.len() && embeddings[chosen].path == added.path);
    if chosen < at {
        assert(embeddings[chosen].path != embeddings[at].path);
    } else if at < chosen {
        assert(embeddings[at].path != embeddings[chosen].path);
    }
    let after = embeddings.update(at, added);
    assert forall|i: int, j: int| 0 <= i < j < after.len() implies (#[trigger] after[i]).path != (
    #[trigger] after[j]).path by {
        assert(embeddings[i].path != embeddings[j].path);
    }
}

/// A vector of a path that had none comes behind the others.
proof fn lemma_with_vector_new(embeddings: Seq<EmbeddingText>, added: EmbeddingText)
    requires
        paths_differ(embeddings),
        forall|k: int| 0 <= k < embeddings.len() ==> (#[trigger] embeddings[k]).path != added.path,
    ensures
        with_vector(embeddings, added) == embeddings.push(added),
        paths_differ(embeddings.push(added)),
{
    let after = embeddings.push(added);
    assert forall|i: int, j: int| 0 <= i < j < after.len() implies (#[trigger] after[i]).path != (
    #[trigger] after[j]).path by {
        assert(after[i] == embeddings[i]);
        if j < embeddings.len() {
            assert(after[j] == embeddings[j]);
        }
    }
}

/// The tables with what is known of a picture, seen in a scan of a folder. Its thumbnail
/// is kept where the record has one.
pub open spec fn with_record(
    tables: CacheTables,
    root: Seq<char>,
    record: ImageText,
    fingerprint: FileFingerprint,
) -> CacheTables {
    CacheTables {
        texts: tables.texts.insert(
            record.path,
            TextRow {
                root,
                filename: record.filename,
                ocr_text: record.ocr_text,
                people: joined(record.people, " "@),
            },
        ),
        images: tables.images.insert(
            record.path,
            ImageRow {
                root,
                bytes: fingerprint.bytes,
                modified_ns: digits_of(fingerprint.modified_ns as nat),
                captured_at: record.captured_at,
                record: cached_of(record),
            },
        ),
        seen: tables.seen.insert(SeenKey { root, path: record.path }),
        thumbnails: match url_bytes(record.thumbnail) {
            Some(jpeg) => tables.thumbnails.insert(record.path, ThumbnailRow { root, jpeg }),
            None => tables.thumbnails,
        },
        ..tables
    }
}

/// The tables with the pictures of a batch; those whose file has no fingerprint are left out.
pub open spec fn with_records(
    tables: CacheTables,
    root: Seq<char>,
    records: Seq<ImageText>,
    known: Map<Seq<char>, FileFingerprint>,
) -> CacheTables
    decreases records.len(),
{
    if records.len() == 0 {
        tables
    } else {
        let before = with_records(tables, root, records.drop_last(), known);
        if known.contains_key(records.last().path) {
            with_record(before, root, records.last(), known[records.last().path])
        } else {
            before
        }
    }
}

/// What the vector of a picture is looked up by.
pub open spec fn clip_key(root: Seq<char>, path: Seq<char>) -> VectorKey {
    VectorKey { kind: "clip"@, root, path, group_id: ""@ }
}

/// What the vector of a group of faces is looked up by.
pub open spec fn face_key(root: Seq<char>, group_id: Seq<char>) -> VectorKey {
    VectorKey { kind: "face"@, root, path: ""@, group_id }
}

/// The vectors with one of them put in, or taken out where it has not the right length.
pub open spec fn with_entry(vectors: Map<VectorKey, Seq<u8>>, key: VectorKey, vector: Option<Seq<u32>>) -> Map<
    VectorKey,
    Seq<u8>,
> {
    match vector {
        Some(vector) if vector.len() == VECTOR_DIMENSION => vectors.insert(key, blob_of(vector)),
        _ => vectors.remove(key),
    }
}

/// The tables with the vectors of pictures.
pub open spec fn with_vectors(tables: CacheTables, root: Seq<char>, embeddings: Seq<EmbeddingText>) -> CacheTables
    decreases embeddings.len(),
{
    if embeddings.len() == 0 {
        tables
    } else {
        let before = with_vectors(tables, root, embeddings.drop_last());
        CacheTables {
            vectors: with_entry(
                before.vectors,
                clip_key(root, embeddings.last().path),
                embeddings.last().vector,
            ),
            ..before
        }
    }
}

/// What is written at a time: records, the fingerprints of their files, and vectors.
pub struct Batch {
    pub records: Seq<ImageText>,
    pub known: Map<Seq<char>, FileFingerprint>,
    pub embeddings: Seq<EmbeddingText>,
}

/// The tables with what a batch writes.
pub open spec fn with_batch(tables: CacheTables, root: Seq<char>, batch: Batch) -> CacheTables {
    with_vectors(with_records(tables, root, batch.records, batch.known), root, batch.embeddings)
}

fn push_record(ops: &mut Vec<CacheOp>, root: &String, record: &ImageRecord, fingerprint: FileFingerprint)
    ensures
        forall|tables: CacheTables| #[trigger]
            apply_all(tables, final(ops)@) == with_record(
                apply_all(tables, old(ops)@),
                root@,
                record@,
                fingerprint,
            ),
{
    let ghost start = ops@;
    let text: CacheOp = CacheOp::PutText {
        path: record.path.clone(),
        root: root.clone(),
        filename: record.filename.clone(),
        ocr_text: record.ocr_text.clone(),
        people: join(&record.people, " "),
    };
    let image: CacheOp = CacheOp::PutRecord {
        path: record.path.clone(),
        root: root.clone(),
        bytes: fingerprint.bytes,
        modified_ns: decimal_string(fingerprint.modified_ns),
        captured_at: copy_optional(&record.captured_at),
        record: CachedImageRecord::from_record(record),
    };
    let seen: CacheOp = CacheOp::MarkSeen { root: root.clone(), path: record.path.clone() };
    proof {
        lemma_apply_one_more(start, text);
        lemma_apply_one_more(start.push(text), image);
        lemma_apply_one_more(start.push(text).push(image), seen);
    }
    ops.push(text);
    ops.push(image);
    ops.push(seen);
    match decode_thumbnail_data_url(record.thumbnail.as_str()) {
        Some(jpeg) => {
            let thumbnail: CacheOp = CacheOp::PutThumbnail { path: record.path.clone(), root: root.clone(), jpeg };
            proof {
                lemma_apply_one_more(start.push(text).push(image).push(seen), thumbnail);
            }
            ops.push(thumbnail);
        },
        None => {},
    }
}

fn vector_op(kind: &str, root: &String, path: &str, group_id: &str, vector: Option<&Vec<u32>>) -> (op: CacheOp)
    ensures
        forall|tables: CacheTables| #[trigger]
            apply(tables, op) == (CacheTables {
                vectors: with_entry(
                    tables.vectors,
                    VectorKey { kind: kind@, root: root@, path: path@, group_id: group_id@ },
                    match vector {
                        Some(vector) => Some(vector@),
                        None => None,
                    },
                ),
                ..tables
            }),
{
    match vector {
        Some(vector) => {
            if vector.len() == VECTOR_DIMENSION {
                return CacheOp::PutVector {
                    kind: kind.to_owned(),
                    root: root.clone(),
                    path: path.to_owned(),
                    group_id: group_id.to_owned(),
                    blob: embedding_blob(vector),
                };
            }
        },
        None => {},
    }
    CacheOp::DropVector {
        kind: kind.to_owned(),
        root: root.clone(),
        path: path.to_owned(),
        group_id: group_id.to_owned(),
    }
}

/// The changes that write a batch of pictures of a folder, with their vectors.
pub fn append_index_cache(root: &String, records: &Vec<ImageRecord>, from: usize, pending: &PendingWrites) -> (ops: Vec<
    CacheOp,
>)
    requires
        from <= records@.len(),
    ensures
        forall|tables: CacheTables| #[trigger]
            apply_all(tables, ops@) == with_batch(
                tables,
                root@,
                Batch {
                    records: images(records@).skip(from as int),
                    known: pending.known(),
                    embeddings: pending.vectors(),
                },
            ),
{
    let ghost all = images(records@).skip(from as int);
    let mut ops: Vec<CacheOp> = Vec::new();
    for i in from..records.len()
        invariant
            from <= records@.len(),
            all == images(records@).skip(from as int),
            forall|tables: CacheTables| #[trigger]
                apply_all(tables, ops@) == with_records(tables, root@, all.take(i - from), pending.known()),
    {
        let ghost before = ops@;
        assert(all.take(i - from + 1).drop_last() =~= all.take(i - from));
        assert(all.take(i - from + 1).last() == records@[i as int]@);
        match pending.fingerprints.get(records[i].path.as_str()) {
            Some(fingerprint) => {
                push_record(&mut ops, root, &records[i], *fingerprint);
            },
            None => {},
        }
        assert forall|tables: CacheTables| #[trigger] apply_all(tables, ops@) == with_records(
            tables,
            root@,
            all.take(i - from + 1),
            pending.known(),
        ) by {
            assert(apply_all(tables, before) == with_records(tables, root@, all.take(i - from), pending.known()));
        }
    }
    assert(all.take(all.len() as int) =~= all);
    let ghost vectors = pending.vectors();
    for i in 0..pending.embeddings.len()
        invariant
            vectors == embeddings_of(pending.embeddings@),
            forall|tables: CacheTables| #[trigger]
                apply_all(tables, ops@) == with_vectors(
                    with_records(tables, root@, all, pending.known()),
                    root@,
                    vectors.take(i as int),
                ),
    {
        let ghost before = ops@;
        assert(vectors.take(i + 1).drop_last() =~= vectors.take(i as int));
        assert(vectors.take(i + 1).last() == pending.embeddings@[i as int]@);
        let embedding: &PendingEmbedding = &pending.embeddings[i];
        let op: CacheOp = match &embedding.vector {
            Some(vector) => vector_op("clip", root, embedding.path.as_str(), "", Some(vector)),
            None => vector_op("clip", root, embedding.path.as_str(), "", None),
        };
        proof {
            lemma_apply_one_more(before, op);
        }
        ops.push(op);
        assert forall|tables: CacheTables| #[trigger] apply_all(tables, ops@) == with_vectors(
            with_records(tables, root@, all, pending.known()),
            root@,
            vectors.take(i + 1),
        ) by {
            assert(apply_all(tables, before) == with_vectors(
                with_records(tables, root@, all, pending.known()),
                root@,
                vectors.take(i as int),
            ));
        }
    }
    assert(vectors.take(vectors.len() as int) =~= vectors);
    ops
}

/// A record whose thumbnail is no longer held, where it has been written.
pub open spec fn released(record: ImageText, known: Map<Seq<char>, FileFingerprint>) -> ImageText {
    if known.contains_key(record.path) {
        ImageText { thumbnail: Seq::empty(), ..record }
    } else {
        record
    }
}

/// Forgets, once a batch has been written to a cache, what was to be written and the
/// thumbnails of the records from `from` on that were written. Without a cache all of it
/// is kept.
pub fn release_written(records: &mut Vec<ImageRecord>, from: usize, pending: &mut PendingWrites, has_cache: bool)
    requires
        from <= old(records)@.len(),
    ensures
        final(records)@.len() == old(records)@.len(),
        forall|k: int|
            0 <= k < final(records)@.len() ==> (#[trigger] final(records)@[k])@ == if has_cache && k >= from {
                released(old(records)@[k]@, old(pending).known())
            } else {
                old(records)@[k]@
            },
        has_cache ==> final(pending).known() == Map::<Seq<char>, FileFingerprint>::empty()
            && final(pending).vectors() == Seq::<EmbeddingText>::empty() && final(pending).well_formed(),
        !has_cache ==> final(pending).known() == old(pending).known() && final(pending).vectors()
            == old(pending).vectors(),
{
    if !has_cache {
        return;
    }
    let ghost start = records@;
    let ghost known = pending.known();
    let count: usize = records.len();
    for i in from..count
        invariant
            count == records@.len(),
            count == start.len(),
            known == pending.known(),
            forall|k: int| i <= k < count ==> records@[k] == start[k],
            forall|k: int| 0 <= k < from ==> records@[k] == start[k],
            forall|k: int| from <= k < i ==> (#[trigger] records@[k])@ == released(start[k]@, known),
    {
        assert(records@[i as int] == start[i as int]);
        if pending.fingerprints.contains_key(records[i].path.as_str()) {
            let empty: String = String::new();
            assert(empty@ =~= Seq::<char>::empty());
            records[i].thumbnail = empty;
        }
    }
    pending.clear();
}

// ---------------------------------------------------------------------------
// The start and the end of a scan
// ---------------------------------------------------------------------------

/// The changes at the start of a scan of a folder: nothing has been seen, and its groups
/// of faces are to be found anew. What is known of its pictures stays.
pub fn begin_scan_cache(root: &String) -> (ops: Vec<CacheOp>)
    ensures
        forall|tables: CacheTables| #[trigger]
            apply_all(tables, ops@) == (CacheTables {
                seen: tables.seen.filter(|key: SeenKey| key.root != root@),
                states: tables.states.remove(root@),
                ..tables
            }),
{
    let seen: CacheOp = CacheOp::ClearSeen { root: root.clone() };
    let state: CacheOp = CacheOp::ClearState { root: root.clone() };
    let mut ops: Vec<CacheOp> = Vec::new();
    proof {
        lemma_apply_one_more(ops@, seen);
        lemma_apply_one_more(ops@.push(seen), state);
    }
    ops.push(seen);
    ops.push(state);
    ops
}

/// The tables without the pictures of a folder that were not seen, and with none of the
/// folder noted as seen.
pub open spec fn cleaned(tables: CacheTables, root: Seq<char>) -> CacheTables {
    CacheTables {
        texts: tables.texts.restrict(
            Set::new(
                |path: Seq<char>|
                    tables.texts.contains_key(path) && (tables.texts[path].root != root || tables.seen.contains(
                        SeenKey { root, path },
                    )),
            ),
        ),
        images: tables.images.restrict(
            Set::new(
                |path: Seq<char>|
                    tables.images.contains_key(path) && (tables.images[path].root != root || tables.seen.contains(
                        SeenKey { root, path },
                    )),
            ),
        ),
        seen: tables.seen.filter(|key: SeenKey| key.root != root),
        ..tables
    }
}

/// The changes that take out the pictures of a folder that a scan has not seen.
pub fn cleanup_stale_cache(root: &String) -> (ops: Vec<CacheOp>)
    ensures
        forall|tables: CacheTables| #[trigger] apply_all(tables, ops@) == cleaned(tables, root@),
{
    let texts: CacheOp = CacheOp::DropUnseenTexts { root: root.clone() };
    let records: CacheOp = CacheOp::DropUnseenRecords { root: root.clone() };
    let seen: CacheOp = CacheOp::ClearSeen { root: root.clone() };
    let mut ops: Vec<CacheOp> = Vec::new();
    proof {
        lemma_apply_one_more(ops@, texts);
        lemma_apply_one_more(ops@.push(texts), records);
        lemma_apply_one_more(ops@.push(texts).push(records), seen);
    }
    ops.push(texts);
    ops.push(records);
    ops.push(seen);
    ops
}

/// The changes that take out the thumbnails of a folder without a picture.
pub fn cleanup_stale_thumbnails(root: &String) -> (ops: Vec<CacheOp>)
    ensures
        forall|tables: CacheTables, path: Seq<char>|
            #![trigger apply_all(tables, ops@).thumbnails.contains_key(path)]
            {
                let after = apply_all(tables, ops@);
                &&& after.thumbnails.contains_key(path) <==> tables.thumbnails.contains_key(path) && (
                tables.thumbnails[path].root != root@ || has_picture(tables, root@, path))
                &&& after.thumbnails.contains_key(path) ==> after.thumbnails[path] == tables.thumbnails[path]
            },
        forall|tables: CacheTables| #[trigger]
            apply_all(tables, ops@) == closed(tables, ClosingStep::Thumbnails, root@, Seq::empty()),
{
    let op: CacheOp = CacheOp::DropOrphanThumbnails { root: root.clone() };
    let mut ops: Vec<CacheOp> = Vec::new();
    proof {
        lemma_apply_one_more(ops@, op);
    }
    ops.push(op);
    ops
}

/// The changes that take out the vectors of a folder's pictures without a picture.
pub fn cleanup_stale_clip_vectors(root: &String) -> (ops: Vec<CacheOp>)
    ensures
        forall|tables: CacheTables, key: VectorKey|
            #![trigger apply_all(tables, ops@).vectors.contains_key(key)]
            {
                let after = apply_all(tables, ops@);
                &&& after.vectors.contains_key(key) <==> tables.vectors.contains_key(key) && (key.kind != "clip"@
                    || key.root != root@ || has_picture(tables, root@, key.path))
                &&& after.vectors.contains_key(key) ==> after.vectors[key] == tables.vectors[key]
            },
        forall|tables: CacheTables| #[trigger]
            apply_all(tables, ops@) == closed(tables, ClosingStep::Vectors, root@, Seq::empty()),
{
    let op: CacheOp = CacheOp::DropOrphanVectors { root: root.clone() };
    let mut ops: Vec<CacheOp> = Vec::new();
    proof {
        lemma_apply_one_more(ops@, op);
    }
    ops.push(op);
    ops
}

/// There is a vector of a picture of a folder.
pub open spec fn lists_clip_vectors(tables: CacheTables, root: Seq<char>) -> bool {
    exists|key: VectorKey| #[trigger] tables.vectors.contains_key(key) && key.kind == "clip"@ && key.root == root
}

/// What the table says when asked whether it has a vector of a picture of a folder: 1 where
/// it has one, else 0.
pub open spec fn clip_answer(tables: CacheTables, root: Seq<char>) -> i64 {
    if lists_clip_vectors(tables, root) {
        1
    } else {
        0
    }
}

/// Whether there are vectors of pictures of a folder: there is a cache, a folder has been
/// scanned, and the table said so when asked whether it has any; it says nothing where it
/// could not be asked.
pub fn has_clip_vectors(has_cache: bool, root: &Option<String>, answer: Option<i64>) -> (found: bool)
    ensures
        found == (has_cache && root is Some && (answer matches Some(answer) && answer != 0)),
        forall|tables: CacheTables|
            has_cache && root is Some && answer == Some(#[trigger] clip_answer(tables, root->0@)) ==> found
                == lists_clip_vectors(tables, root->0@),
{
    match (root, answer) {
        (Some(_), Some(answer)) => has_cache && answer != 0,
        _ => false,
    }
}

/// The tables with the given groups of faces as those of a folder.
pub open spec fn with_groups(vectors: Map<VectorKey, Seq<u8>>, root: Seq<char>, groups: Seq<ClusterText>) -> Map<
    VectorKey,
    Seq<u8>,
>
    decreases groups.len(),
{
    if groups.len() == 0 {
        vectors
    } else {
        with_entry(
            with_groups(vectors, root, groups.drop_last()),
            face_key(root, groups.last().id),
            Some(groups.last().centroid),
        )
    }
}

/// The vectors without those of the groups of faces of a folder.
pub open spec fn without_groups(vectors: Map<VectorKey, Seq<u8>>, root: Seq<char>) -> Map<VectorKey, Seq<u8>> {
    vectors.restrict(
        Set::new(|key: VectorKey| vectors.contains_key(key) && (key.kind != "face"@ || key.root != root)),
    )
}

/// The changes that put the centres of groups of faces into the vector index, in place of
/// all that were there for the folder.
pub fn sync_face_vectors(root: &String, face_clusters: &Vec<FaceCluster>) -> (ops: Vec<CacheOp>)
    ensures
        forall|tables: CacheTables| #[trigger]
            apply_all(tables, ops@) == (CacheTables {
                vectors: with_groups(
                    without_groups(tables.vectors, root@),
                    root@,
                    clusters_of(face_clusters@),
                ),
                ..tables
            }),
{
    let ghost all = clusters_of(face_clusters@);
    let first: CacheOp = CacheOp::DropFaceVectors { root: root.clone() };
    let mut ops: Vec<CacheOp> = Vec::new();
    proof {
        lemma_apply_one_more(ops@, first);
    }
    ops.push(first);
    for i in 0..face_clusters.len()
        invariant
            all == clusters_of(face_clusters@),
            forall|tables: CacheTables| #[trigger]
                apply_all(tables, ops@) == (CacheTables {
                    vectors: with_groups(without_groups(tables.vectors, root@), root@, all.take(i as int)),
                    ..tables
                }),
    {
        let ghost before = ops@;
        assert(all.take(i + 1).drop_last() =~= all.take(i as int));
        assert(all.take(i + 1).last() == face_clusters@[i as int]@);
        let group: &FaceCluster = &face_clusters[i];
        let op: CacheOp = vector_op("face", root, "", group.id.as_str(), Some(&group.centroid));
        proof {
            lemma_apply_one_more(before, op);
        }
        ops.push(op);
        assert forall|tables: CacheTables| #[trigger] apply_all(tables, ops@) == (CacheTables {
            vectors: with_groups(without_groups(tables.vectors, root@), root@, all.take(i + 1)),
            ..tables
        }) by {
            assert(apply_all(tables, before) == (CacheTables {
                vectors: with_groups(without_groups(tables.vectors, root@), root@, all.take(i as int)),
                ..tables
            }));
        }
    }
    assert(all.take(all.len() as int) =~= all);
    ops
}

/// The change that keeps the groups of faces of a folder.
pub fn save_index_cache_state(root: &String, face_groups: Vec<FaceCluster>) -> (ops: Vec<CacheOp>)
    ensures
        forall|tables: CacheTables| #[trigger]
            apply_all(tables, ops@) == (CacheTables {
                states: tables.states.insert(root@, clusters_of(face_groups@)),
                ..tables
            }),
{
    let op: CacheOp = CacheOp::PutState { root: root.clone(), groups: face_groups };
    let mut ops: Vec<CacheOp> = Vec::new();
    proof {
        lemma_apply_one_more(ops@, op);
    }
    ops.push(op);
    ops
}

/// A change that is made once a scan has ended, for itself: where one fails, the others are
/// made all the same.
#[derive(Debug, Clone, Copy, PartialEq, Eq, Structural)]
pub enum ClosingStep {
    /// Take out the pictures that were not seen.
    Pictures,
    /// Take out the thumbnails without a picture.
    Thumbnails,
    /// Take out the vectors of pictures without a picture.
    Vectors,
    /// Put in the centres of the groups of faces.
    FaceVectors,
    /// Keep the groups of faces.
    Groups,
}

/// The changes that are made once a scan has ended. Pictures are only taken out where all
/// that was seen has been written.
pub open spec fn closing_steps(all_written: bool) -> Seq<ClosingStep> {
    let rest = seq![
        ClosingStep::Thumbnails,
        ClosingStep::Vectors,
        ClosingStep::FaceVectors,
        ClosingStep::Groups,
    ];
    if all_written {
        seq![ClosingStep::Pictures] + rest
    } else {
        rest
    }
}

/// What a closing change makes of the tables.
pub open spec fn closed(tables: CacheTables, step: ClosingStep, root: Seq<char>, groups: Seq<ClusterText>) -> CacheTables {
    match step {
        ClosingStep::Pictures => cleaned(tables, root),
        ClosingStep::Thumbnails => CacheTables {
            thumbnails: tables.thumbnails.restrict(
                Set::new(
                    |path: Seq<char>|
                        tables.thumbnails.contains_key(path) && (tables.thumbnails[path].root != root || has_picture(
                            tables,
                            root,
                            path,
                        )),
                ),
            ),
            ..tables
        },
        ClosingStep::Vectors => CacheTables {
            vectors: tables.vectors.restrict(
                Set::new(
                    |key: VectorKey|
                        tables.vectors.contains_key(key) && (key.kind != "clip"@ || key.root != root || has_picture(
                            tables,
                            root,
                            key.path,
                        )),
                ),
            ),
            ..tables
        },
        ClosingStep::FaceVectors => CacheTables {
            vectors: with_groups(without_groups(tables.vectors, root), root, groups),
            ..tables
        },
        ClosingStep::Groups => CacheTables { states: tables.states.insert(root, groups), ..tables },
    }
}

/// The changes that are made once a scan has ended, each for itself: `all_written` tells
/// whether all that was seen has been written.
pub fn closing_changes(root: &String, all_written: bool, face_groups: &Vec<FaceCluster>) -> (changes: Vec<Vec<CacheOp>>)
    ensures
        changes@.len() == closing_steps(all_written).len(),
        forall|k: int, tables: CacheTables|
            0 <= k < changes@.len() ==> #[trigger] apply_all(tables, changes@[k]@) == closed(
                tables,
                closing_steps(all_written)[k],
                root@,
                clusters_of(face_groups@),
            ),
{
    let mut changes: Vec<Vec<CacheOp>> = Vec::new();
    if all_written {
        changes.push(cleanup_stale_cache(root));
    }
    changes.push(cleanup_stale_thumbnails(root));
    changes.push(cleanup_stale_clip_vectors(root));
    changes.push(sync_face_vectors(root, face_groups));
    changes.push(save_index_cache_state(root, copy_clusters(face_groups)));
    changes
}

/// Where not all that was seen could be written, ending the scan takes no picture and no text
/// out of the tables.
pub proof fn law_failed_write_loses_no_picture(
    tables: CacheTables,
    root: Seq<char>,
    groups: Seq<ClusterText>,
    k: int,
)
    requires
        0 <= k < closing_steps(false).len(),
    ensures
        closed(tables, closing_steps(false)[k], root, groups).images == tables.images,
        closed(tables, closing_steps(false)[k], root, groups).texts == tables.texts,
{
}

// ---------------------------------------------------------------------------
// Reading
// ---------------------------------------------------------------------------

/// The fingerprint that the numbers in a row of the table stand for.
pub open spec fn stored_fingerprint(bytes: u64, modified_ns: Seq<char>) -> Option<FileFingerprint> {
    match unsigned_value(modified_ns, u128::MAX as nat) {
        Some(modified) => Some(FileFingerprint { bytes, modified_ns: modified as u128 }),
        None => None,
    }
}

/// What is kept of a picture, by a row of the table: `modified_ns` is the text in it, and
/// `record` what the rest of it was read as. There is none where either cannot be read.
pub fn read_cached_image(
    bytes: u64,
    modified_ns: &str,
    record: Option<CachedImageRecord>,
    thumbnail_available: bool,
) -> (image: Option<CachedImage>)
    ensures
        match (stored_fingerprint(bytes, modified_ns@), record) {
            (Some(fingerprint), Some(record)) => image == Some(
                CachedImage { fingerprint, record, thumbnail_available },
            ),
            _ => image is None,
        },
{
    match (read_unsigned(&chars_of(modified_ns), u128::MAX), record) {
        (Some(modified_ns), Some(record)) => Some(
            CachedImage { fingerprint: FileFingerprint { bytes, modified_ns }, record, thumbnail_available },
        ),
        _ => None,
    }
}

/// Whether a vector can be looked for in the vector index.
pub fn is_searchable(length: usize) -> (searchable: bool)
    ensures
        searchable == (length == VECTOR_DIMENSION),
{
    length == VECTOR_DIMENSION
}

// ---------------------------------------------------------------------------
// What holds of the tables
// ---------------------------------------------------------------------------

/// A record is among those of a batch that are written.
pub open spec fn is_written(
    records: Seq<ImageText>,
    known: Map<Seq<char>, FileFingerprint>,
    path: Seq<char>,
) -> bool {
    known.contains_key(path) && exists|k: int| 0 <= k < records.len() && (#[trigger] records[k]).path == path
}

/// Writing a batch notes exactly the records written as seen, puts them under the folder,
/// and leaves what is known of other pictures as it is.
proof fn lemma_written_records(
    tables: CacheTables,
    root: Seq<char>,
    records: Seq<ImageText>,
    known: Map<Seq<char>, FileFingerprint>,
    path: Seq<char>,
)
    ensures
        ({
            let after = with_records(tables, root, records, known);
            &&& after.seen.contains(SeenKey { root, path }) <==> tables.seen.contains(SeenKey { root, path })
                || is_written(records, known, path)
            &&& is_written(records, known, path) ==> has_picture(after, root, path)
            &&& !is_written(records, known, path) ==> same_picture(tables, after, path)
        }),
    decreases records.len(),
{
    if records.len() > 0 {
        let shorter = records.drop_last();
        lemma_written_records(tables, root, shorter, known, path);
        let last = records[records.len() - 1];
        if is_written(shorter, known, path) {
            let k = choose|k: int| 0 <= k < shorter.len() && (#[trigger] shorter[k]).path == path;
            assert(records[k].path == path);
        }
        if is_written(records, known, path) && last.path != path {
            let k = choose|k: int| 0 <= k < records.len() && (#[trigger] records[k]).path == path;
            assert(shorter[k].path == path);
        }
    }
}

/// Two states of the tables have the same of a picture: its row, its text and its thumbnail.
pub open spec fn same_picture(before: CacheTables, after: CacheTables, path: Seq<char>) -> bool {
    &&& after.images.contains_key(path) == before.images.contains_key(path)
    &&& after.images[path] == before.images[path]
    &&& after.texts.contains_key(path) == before.texts.contains_key(path)
    &&& after.texts[path] == before.texts[path]
    &&& after.thumbnails.contains_key(path) == before.thumbnails.contains_key(path)
    &&& after.thumbnails[path] == before.thumbnails[path]
}

/// Writing vectors leaves the other tables as they are.
proof fn lemma_vectors_alone(tables: CacheTables, root: Seq<char>, embeddings: Seq<EmbeddingText>)
    ensures
        with_vectors(tables, root, embeddings) == (CacheTables {
            vectors: with_vectors(tables, root, embeddings).vectors,
            ..tables
        }),
    decreases embeddings.len(),
{
    if embeddings.len() > 0 {
        lemma_vectors_alone(tables, root, embeddings.drop_last());
    }
}

/// The tables with what batches write, one after the other.
pub open spec fn with_batches(tables: CacheTables, root: Seq<char>, batches: Seq<Batch>) -> CacheTables
    decreases batches.len(),
{
    if batches.len() == 0 {
        tables
    } else {
        with_batch(with_batches(tables, root, batches.drop_last()), root, batches.last())
    }
}

/// A batch writes a record with the given path.
pub open spec fn writes(batch: Batch, path: Seq<char>) -> bool {
    is_written(batch.records, batch.known, path)
}

/// The tables have of a picture what was written of its record: its fingerprint, and the
/// record but for its thumbnail and score; its words; and the thumbnail, if it has one.
pub open spec fn holds_record(
    tables: CacheTables,
    root: Seq<char>,
    record: ImageText,
    fingerprint: FileFingerprint,
) -> bool {
    let row = tables.images[record.path];
    &&& has_picture(tables, root, record.path)
    &&& stored_fingerprint(row.bytes, row.modified_ns) == Some(fingerprint)
    &&& record_of(row.record, record.path) == (ImageText {
        id: record.path,
        thumbnail: Seq::empty(),
        score: crate::score::Score::one(),
        ..record
    })
    &&& tables.texts.contains_key(record.path)
    &&& tables.texts[record.path] == (TextRow {
        root,
        filename: record.filename,
        ocr_text: record.ocr_text,
        people: joined(record.people, " "@),
    })
    &&& url_bytes(record.thumbnail) matches Some(jpeg) ==> tables.thumbnails.contains_key(record.path)
        && tables.thumbnails[record.path] == (ThumbnailRow { root, jpeg })
}

/// What a batch wrote of a picture is there.
proof fn lemma_written_record_is_held(tables: CacheTables, root: Seq<char>, batch: Batch, at: int)
    requires
        0 <= at < batch.records.len(),
        batch.known.contains_key(batch.records[at].path),
        forall|k: int| at < k < batch.records.len() ==> (#[trigger] batch.records[k]).path != batch.records[at].path,
    ensures
        holds_record(
            with_batch(tables, root, batch),
            root,
            batch.records[at],
            batch.known[batch.records[at].path],
        ),
    decreases batch.records.len(),
{
    let records = batch.records;
    lemma_vectors_alone(with_records(tables, root, records, batch.known), root, batch.embeddings);
    if at < records.len() - 1 {
        let shorter = records.drop_last();
        assert(shorter[at] == records[at]);
        assert forall|k: int| at < k < shorter.len() implies (#[trigger] shorter[k]).path != shorter[at].path by {
            assert(records[k].path != records[at].path);
        }
        lemma_written_record_is_held(tables, root, Batch { records: shorter, ..batch }, at);
        lemma_vectors_alone(with_records(tables, root, shorter, batch.known), root, batch.embeddings);
        assert(records[records.len() - 1].path != records[at].path);
    } else {
        law_written_number_is_read_back(batch.known[records[at].path].modified_ns as nat, u128::MAX as nat);
    }
}

/// What a scan wrote of a picture, in whichever batch, is read back. Of records with the
/// same path the last one counts.
pub proof fn law_written_picture_is_read_back(
    tables: CacheTables,
    root: Seq<char>,
    batches: Seq<Batch>,
    batch: int,
    at: int,
)
    requires
        0 <= batch < batches.len(),
        0 <= at < batches[batch].records.len(),
        batches[batch].known.contains_key(batches[batch].records[at].path),
        forall|k: int|
            at < k < batches[batch].records.len() ==> (#[trigger] batches[batch].records[k]).path
                != batches[batch].records[at].path,
        forall|k: int|
            batch < k < batches.len() ==> !writes(#[trigger] batches[k], batches[batch].records[at].path),
    ensures
        holds_record(
            with_batches(tables, root, batches),
            root,
            batches[batch].records[at],
            batches[batch].known[batches[batch].records[at].path],
        ),
    decreases batches.len(),
{
    let shorter = batches.drop_last();
    let before = with_batches(tables, root, shorter);
    let last = batches.last();
    if batch == batches.len() - 1 {
        lemma_written_record_is_held(before, root, last, at);
    } else {
        let path = batches[batch].records[at].path;
        assert(shorter[batch] == batches[batch]);
        assert forall|k: int| batch < k < shorter.len() implies !writes(#[trigger] shorter[k], path) by {
            assert(!writes(batches[k], path));
        }
        law_written_picture_is_read_back(tables, root, shorter, batch, at);
        assert(!writes(batches[batches.len() - 1], path));
        lemma_written_records(before, root, last.records, last.known, path);
        lemma_vectors_alone(with_records(before, root, last.records, last.known), root, last.embeddings);
    }
}

/// One of the batches writes a record with the given path.
pub open spec fn any_writes(batches: Seq<Batch>, path: Seq<char>) -> bool {
    exists|k: int| 0 <= k < batches.len() && writes(#[trigger] batches[k], path)
}

/// Writing batches notes exactly the records written as seen, puts them under the folder,
/// and leaves what is known of other pictures as it is.
proof fn lemma_written_batches(tables: CacheTables, root: Seq<char>, batches: Seq<Batch>, path: Seq<char>)
    ensures
        ({
            let after = with_batches(tables, root, batches);
            &&& after.seen.contains(SeenKey { root, path }) <==> tables.seen.contains(SeenKey { root, path })
                || any_writes(batches, path)
            &&& any_writes(batches, path) ==> has_picture(after, root, path)
            &&& !any_writes(batches, path) ==> same_picture(tables, after, path)
        }),
    decreases batches.len(),
{
    if batches.len() > 0 {
        let shorter = batches.drop_last();
        let before = with_batches(tables, root, shorter);
        let last = batches[batches.len() - 1];
        lemma_written_batches(tables, root, shorter, path);
        lemma_written_records(before, root, last.records, last.known, path);
        lemma_vectors_alone(with_records(before, root, last.records, last.known), root, last.embeddings);
        if any_writes(shorter, path) {
            let k = choose|k: int| 0 <= k < shorter.len() && writes(#[trigger] shorter[k], path);
            assert(writes(batches[k], path));
        }
        if any_writes(batches, path) && !writes(last, path) {
            let k = choose|k: int| 0 <= k < batches.len() && writes(#[trigger] batches[k], path);
            assert(writes(shorter[k], path));
        }
    }
}

/// After a scan that saw and wrote some pictures of a folder, batch by batch, the table has
/// exactly those pictures of the folder, and those of other folders that it had and that
/// the scan did not write over.
pub proof fn law_scan_leaves_what_it_saw(tables: CacheTables, root: Seq<char>, batches: Seq<Batch>, path: Seq<char>)
    ensures
        ({
            let begun = CacheTables {
                seen: tables.seen.filter(|key: SeenKey| key.root != root),
                states: tables.states.remove(root),
                ..tables
            };
            let after = cleaned(with_batches(begun, root, batches), root);
            &&& has_picture(after, root, path) <==> any_writes(batches, path)
            &&& tables.images.contains_key(path) && tables.images[path].root != root && !any_writes(batches, path)
                ==> after.images.contains_key(path) && after.images[path] == tables.images[path]
            &&& !after.seen.contains(SeenKey { root, path })
        }),
{
    let begun = CacheTables {
        seen: tables.seen.filter(|key: SeenKey| key.root != root),
        states: tables.states.remove(root),
        ..tables
    };
    assert(!begun.seen.contains(SeenKey { root, path }));
    lemma_written_batches(begun, root, batches, path);
}

/// After vectors were written, a picture of the batch has a vector exactly where one of
/// the right length was written for it, and that one; other vectors are as they were.
pub proof fn law_written_vectors_are_found(
    tables: CacheTables,
    root: Seq<char>,
    embeddings: Seq<EmbeddingText>,
    key: VectorKey,
)
    requires
        paths_differ(embeddings),
    ensures
        ({
            let after = with_vectors(tables, root, embeddings);
            &&& forall|k: int|
                0 <= k < embeddings.len() && key == clip_key(root, (#[trigger] embeddings[k]).path) ==> ({
                    match embeddings[k].vector {
                        Some(vector) if vector.len() == VECTOR_DIMENSION => after.vectors.contains_key(key)
                            && after.vectors[key] == blob_of(vector),
                        _ => !after.vectors.contains_key(key),
                    }
                })
            &&& (forall|k: int| 0 <= k < embeddings.len() ==> key != clip_key(root, (#[trigger] embeddings[k]).path))
                ==> after.vectors.contains_key(key) == tables.vectors.contains_key(key) && after.vectors[key]
                == tables.vectors[key]
        }),
    decreases embeddings.len(),
{
    if embeddings.len() > 0 {
        let shorter = embeddings.drop_last();
        let last = embeddings[embeddings.len() - 1];
        assert forall|i: int, j: int| 0 <= i < j < shorter.len() implies (#[trigger] shorter[i]).path != (
        #[trigger] shorter[j]).path by {
            assert(embeddings[i].path != embeddings[j].path);
        }
        law_written_vectors_are_found(tables, root, shorter, key);
        let after = with_vectors(tables, root, embeddings);
        assert forall|k: int|
            0 <= k < embeddings.len() && key == clip_key(root, (#[trigger] embeddings[k]).path) implies ({
            match embeddings[k].vector {
                Some(vector) if vector.len() == VECTOR_DIMENSION => after.vectors.contains_key(key)
                    && after.vectors[key] == blob_of(vector),
                _ => !after.vectors.contains_key(key),
            }
        }) by {
            if k < shorter.len() {
                assert(shorter[k] == embeddings[k]);
                assert(embeddings[k].path != last.path);
            }
        }
        if forall|k: int| 0 <= k < embeddings.len() ==> key != clip_key(root, (#[trigger] embeddings[k]).path) {
            assert forall|k: int| 0 <= k < shorter.len() implies key != clip_key(
                root,
                (#[trigger] shorter[k]).path,
            ) by {
                assert(embeddings[k] == shorter[k]);
            }
            assert(key != clip_key(root, last.path));
        }
    }
}

// ---------------------------------------------------------------------------
// Rows of the vector index
// ---------------------------------------------------------------------------

/// The vector index is two tables: what a row number belongs to, and the vector with it.
pub struct VectorTables {
    pub entries: Map<int, VectorKey>,
    pub vectors: Map<int, Seq<u8>>,
}

impl VectorTables {
    /// Both tables have the same row numbers, and nothing has two of them.
    pub open spec fn well_formed(self) -> bool {
        &&& forall|row: int| #[trigger] self.entries.contains_key(row) <==> self.vectors.contains_key(row)
        &&& forall|a: int, b: int|
            #![trigger self.entries[a], self.entries[b]]
            self.entries.contains_key(a) && self.entries.contains_key(b) && self.entries[a] == self.entries[b]
                ==> a == b
    }

    /// A row number is that of what is looked up.
    pub open spec fn found(self, key: VectorKey, row: Option<i64>) -> bool {
        match row {
            Some(row) => self.entries.contains_key(row as int) && self.entries[row as int] == key,
            None => forall|other: int| #[trigger] self.entries.contains_key(other) ==> self.entries[other] != key,
        }
    }

    /// What is looked up has a vector.
    pub open spec fn has(self, key: VectorKey, vector: Seq<u8>) -> bool {
        exists|row: int| #[trigger]
            self.entries.contains_key(row) && self.entries[row] == key && self.vectors[row] == vector
    }
}

/// A change to the two tables of the vector index.
pub enum VectorStep {
    /// Take the vector of a row out.
    DeleteVector { row: i64 },
    /// Take what a row belongs to out.
    DeleteEntry { row: i64 },
    /// Put a vector in, in the given row or in a new one.
    InsertVector { at: Option<i64>, blob: Vec<u8> },
    /// Put in what the row of the vector that was put in belongs to.
    InsertEntry { at: Option<i64> },
}

/// The row that is meant, where a new one has the number `fresh`.
pub open spec fn row_number(row: Option<i64>, fresh: int) -> int {
    match row {
        Some(row) => row as int,
        None => fresh,
    }
}

/// What a change makes of the tables; a new row has the number `fresh`.
pub open spec fn step(tables: VectorTables, step: VectorStep, key: VectorKey, fresh: int) -> VectorTables {
    match step {
        VectorStep::DeleteVector { row } => VectorTables { vectors: tables.vectors.remove(row as int), ..tables },
        VectorStep::DeleteEntry { row } => VectorTables { entries: tables.entries.remove(row as int), ..tables },
        VectorStep::InsertVector { at, blob } => VectorTables {
            vectors: tables.vectors.insert(row_number(at, fresh), blob@),
            ..tables
        },
        VectorStep::InsertEntry { at } => VectorTables {
            entries: tables.entries.insert(row_number(at, fresh), key),
            ..tables
        },
    }
}

/// What changes make of the tables.
pub open spec fn step_all(tables: VectorTables, steps: Seq<VectorStep>, key: VectorKey, fresh: int) -> VectorTables
    decreases steps.len(),
{
    if steps.len() == 0 {
        tables
    } else {
        step(step_all(tables, steps.drop_last(), key, fresh), steps.last(), key, fresh)
    }
}

/// The steps take what is looked up out of the tables, and nothing else.
pub open spec fn takes_out(steps: Seq<VectorStep>, row: Option<i64>) -> bool {
    forall|tables: VectorTables, key: VectorKey, fresh: int|
        #![trigger step_all(tables, steps, key, fresh)]
        tables.well_formed() && tables.found(key, row) ==> ({
            let after = step_all(tables, steps, key, fresh);
            &&& after.well_formed()
            &&& after.found(key, None)
            &&& forall|other: VectorKey, vector: Seq<u8>|
                other != key ==> #[trigger] after.has(other, vector) == tables.has(other, vector)
        })
}

/// The steps put a vector into the tables for what is looked up, and change nothing else.
pub open spec fn puts_in(steps: Seq<VectorStep>, row: Option<i64>, blob: Seq<u8>) -> bool {
    forall|tables: VectorTables, key: VectorKey, fresh: int|
        #![trigger step_all(tables, steps, key, fresh)]
        tables.well_formed() && tables.found(key, row) && !tables.entries.contains_key(fresh) ==> ({
            let after = step_all(tables, steps, key, fresh);
            &&& after.well_formed()
            &&& after.has(key, blob)
            &&& forall|other: VectorKey, vector: Seq<u8>|
                other != key ==> #[trigger] after.has(other, vector) == tables.has(other, vector)
        })
}

/// Without one row, the tables have what the other rows have.
proof fn lemma_without_row(tables: VectorTables, key: VectorKey, row: int)
    requires
        tables.well_formed(),
        tables.entries.contains_key(row),
        tables.entries[row] == key,
    ensures
        ({
            let after = VectorTables {
                entries: tables.entries.remove(row),
                vectors: tables.vectors.remove(row),
            };
            &&& after.well_formed()
            &&& after.found(key, None)
            &&& forall|other: VectorKey, vector: Seq<u8>|
                other != key ==> #[trigger] after.has(other, vector) == tables.has(other, vector)
        }),
{
    let after = VectorTables { entries: tables.entries.remove(row), vectors: tables.vectors.remove(row) };
    assert forall|other: VectorKey, vector: Seq<u8>| other != key implies #[trigger] after.has(other, vector)
        == tables.has(other, vector) by {
        if tables.has(other, vector) {
            let k = choose|k: int| #[trigger]
                tables.entries.contains_key(k) && tables.entries[k] == other && tables.vectors[k] == vector;
            assert(after.entries.contains_key(k) && after.entries[k] == other && after.vectors[k] == vector);
        }
        if after.has(other, vector) {
            let k = choose|k: int| #[trigger]
                after.entries.contains_key(k) && after.entries[k] == other && after.vectors[k] == vector;
            assert(tables.entries.contains_key(k) && tables.entries[k] == other && tables.vectors[k] == vector);
        }
    }
    assert forall|a: int, b: int|
        #![trigger after.entries[a], after.entries[b]]
        after.entries.contains_key(a) && after.entries.contains_key(b) && after.entries[a] == after.entries[b] implies a
        == b by {
        assert(tables.entries[a] == tables.entries[b]);
    }
    assert forall|k: int| #[trigger] after.entries.contains_key(k) implies after.entries[k] != key by {
        if after.entries[k] == key {
            assert(tables.entries[k] == tables.entries[row]);
        }
    }
}

/// With one row more, the tables have what the other rows have, and that one.
proof fn lemma_with_row(tables: VectorTables, key: VectorKey, row: int, blob: Seq<u8>)
    requires
        tables.well_formed(),
        tables.found(key, None),
        !tables.entries.contains_key(row),
    ensures
        ({
            let after = VectorTables {
                entries: tables.entries.insert(row, key),
                vectors: tables.vectors.insert(row, blob),
            };
            &&& after.well_formed()
            &&& after.has(key, blob)
            &&& forall|other: VectorKey, vector: Seq<u8>|
                other != key ==> #[trigger] after.has(other, vector) == tables.has(other, vector)
        }),
{
    let after = VectorTables {
        entries: tables.entries.insert(row, key),
        vectors: tables.vectors.insert(row, blob),
    };
    assert(after.entries.contains_key(row) && after.entries[row] == key && after.vectors[row] == blob);
    assert forall|other: VectorKey, vector: Seq<u8>| other != key implies #[trigger] after.has(other, vector)
        == tables.has(other, vector) by {
        if tables.has(other, vector) {
            let k = choose|k: int| #[trigger]
                tables.entries.contains_key(k) && tables.entries[k] == other && tables.vectors[k] == vector;
            assert(after.entries.contains_key(k) && after.entries[k] == other && after.vectors[k] == vector);
        }
        if after.has(other, vector) {
            let k = choose|k: int| #[trigger]
                after.entries.contains_key(k) && after.entries[k] == other && after.vectors[k] == vector;
            assert(tables.entries.contains_key(k) && tables.entries[k] == other && tables.vectors[k] == vector);
        }
    }
    assert forall|a: int, b: int|
        #![trigger after.entries[a], after.entries[b]]
        after.entries.contains_key(a) && after.entries.contains_key(b) && after.entries[a] == after.entries[b] implies a
        == b by {
        if a != row && b != row {
            assert(tables.entries[a] == tables.entries[b]);
        } else if a != row {
            assert(tables.entries.contains_key(a));
        } else if b != row {
            assert(tables.entries.contains_key(b));
        }
    }
}

/// One step more.
proof fn lemma_step_one_more(steps: Seq<VectorStep>, next: VectorStep)
    ensures
        forall|tables: VectorTables, key: VectorKey, fresh: int| #[trigger]
            step_all(tables, steps.push(next), key, fresh) == step(
                step_all(tables, steps, key, fresh),
                next,
                key,
                fresh,
            ),
{
    assert(steps.push(next).drop_last() =~= steps);
}

/// The steps that take a vector out, where `row` is the number of its row, if it has one.
pub fn delete_vector_entry(row: Option<i64>) -> (steps: Vec<VectorStep>)
    ensures
        takes_out(steps@, row),
        forall|tables: VectorTables, key: VectorKey, fresh: int| #[trigger]
            step_all(tables, steps@, key, fresh) == match row {
                Some(row) => VectorTables {
                    entries: tables.entries.remove(row as int),
                    vectors: tables.vectors.remove(row as int),
                },
                None => tables,
            },
{
    let mut steps: Vec<VectorStep> = Vec::new();
    match row {
        Some(row) => {
            let vector: VectorStep = VectorStep::DeleteVector { row };
            let entry: VectorStep = VectorStep::DeleteEntry { row };
            proof {
                lemma_step_one_more(steps@, vector);
                lemma_step_one_more(steps@.push(vector), entry);
            }
            steps.push(vector);
            steps.push(entry);
            proof {
                assert forall|tables: VectorTables, key: VectorKey, fresh: int|
                    #![trigger step_all(tables, steps@, key, fresh)]
                    tables.well_formed() && tables.found(key, Some(row)) implies ({
                    let after = step_all(tables, steps@, key, fresh);
                    &&& after.well_formed()
                    &&& after.found(key, None)
                    &&& forall|other: VectorKey, vector: Seq<u8>|
                        other != key ==> #[trigger] after.has(other, vector) == tables.has(other, vector)
                }) by {
                    lemma_without_row(tables, key, row as int);
                    assert(step_all(tables, steps@, key, fresh) == (VectorTables {
                        entries: tables.entries.remove(row as int),
                        vectors: tables.vectors.remove(row as int),
                    }));
                }
            }
        },
        None => {},
    }
    steps
}

/// The steps that put a vector in, where `row` is the number of the row of the one that
/// is there, if there is one: its place is taken. A vector that has not the right length
/// is not put in, and the one that is there is taken out.
pub fn upsert_vector_entry(row: Option<i64>, vector: &Vec<u32>) -> (steps: Vec<VectorStep>)
    ensures
        vector@.len() == VECTOR_DIMENSION ==> puts_in(steps@, row, blob_of(vector@)),
        vector@.len() != VECTOR_DIMENSION ==> takes_out(steps@, row),
{
    let mut steps: Vec<VectorStep> = delete_vector_entry(row);
    if vector.len() != VECTOR_DIMENSION {
        return steps;
    }
    let ghost deleted = steps@;
    let insert: VectorStep = VectorStep::InsertVector { at: row, blob: embedding_blob(vector) };
    let entry: VectorStep = VectorStep::InsertEntry { at: row };
    proof {
        lemma_step_one_more(deleted, insert);
        lemma_step_one_more(deleted.push(insert), entry);
    }
    steps.push(insert);
    steps.push(entry);
    proof {
        let blob = blob_of(vector@);
        assert forall|tables: VectorTables, key: VectorKey, fresh: int|
            #![trigger step_all(tables, steps@, key, fresh)]
            tables.well_formed() && tables.found(key, row) && !tables.entries.contains_key(fresh) implies ({
            let after = step_all(tables, steps@, key, fresh);
            &&& after.well_formed()
            &&& after.has(key, blob)
            &&& forall|other: VectorKey, vector: Seq<u8>|
                other != key ==> #[trigger] after.has(other, vector) == tables.has(other, vector)
        }) by {
            let middle = step_all(tables, deleted, key, fresh);
            assert(middle.well_formed() && middle.found(key, None));
            assert(!middle.entries.contains_key(row_number(row, fresh)));
            lemma_with_row(middle, key, row_number(row, fresh), blob);
            assert(step_all(tables, steps@, key, fresh) == (VectorTables {
                entries: middle.entries.insert(row_number(row, fresh), key),
                vectors: middle.vectors.insert(row_number(row, fresh), blob),
            }));
        }
    }
    steps
}

// ---------------------------------------------------------------------------
// Moving old vectors
// ---------------------------------------------------------------------------

/// A vector that can be moved: it is there and has the right length.
pub open spec fn is_movable(row: EmbeddingText) -> bool {
    row.vector matches Some(vector) && vector.len() == VECTOR_DIMENSION
}

/// Whether the vectors of a folder are still to be moved, by the number of times that it
/// was noted that they were.
pub fn needs_migration(noted: i64) -> (needed: bool)
    ensures
        needed == (noted == 0),
{
    noted == 0
}

/// Vectors of an older form of the cache on their way to the vector index. No more than a
/// batch of them is held at a time.
pub struct LegacyMigration {
    pending: Vec<PendingEmbedding>,
}

impl LegacyMigration {
    /// The vectors that are held.
    pub closed spec fn held(&self) -> Seq<EmbeddingText> {
        embeddings_of(self.pending@)
    }

    /// Less than a batch is held, and only what can be moved.
    pub open spec fn well_formed(&self) -> bool {
        &&& self.held().len() < MAX_PENDING_EMBEDDINGS
        &&& forall|k: int| 0 <= k < self.held().len() ==> is_movable(#[trigger] self.held()[k])
    }

    /// Nothing is held.
    pub fn new() -> (migration: LegacyMigration)
        ensures
            migration.well_formed(),
            migration.held() == Seq::<EmbeddingText>::empty(),
    {
        let migration: LegacyMigration = LegacyMigration { pending: Vec::new() };
        assert(embeddings_of(migration.pending@) =~= Seq::<EmbeddingText>::empty());
        migration
    }

    fn flush(&mut self, root: &String) -> (ops: Vec<CacheOp>)
        ensures
            final(self).held() == Seq::<EmbeddingText>::empty(),
            forall|tables: CacheTables| #[trigger]
                apply_all(tables, ops@) == with_vectors(tables, root@, old(self).held()),
    {
        let ghost all = embeddings_of(self.pending@);
        let mut ops: Vec<CacheOp> = Vec::new();
        let count: usize = self.pending.len();
        for i in 0..count
            invariant
                count == self.pending@.len(),
                all == embeddings_of(self.pending@),
                all == old(self).held(),
                forall|tables: CacheTables| #[trigger]
                    apply_all(tables, ops@) == with_vectors(tables, root@, all.take(i as int)),
        {
            let ghost before = ops@;
            assert(all.take(i + 1).drop_last() =~= all.take(i as int));
            assert(all.take(i + 1).last() == self.pending@[i as int]@);
            let row: &PendingEmbedding = &self.pending[i];
            let op: CacheOp = match &row.vector {
                Some(vector) => vector_op("clip", root, row.path.as_str(), "", Some(vector)),
                None => vector_op("clip", root, row.path.as_str(), "", None),
            };
            proof {
                lemma_apply_one_more(before, op);
            }
            ops.push(op);
            assert forall|tables: CacheTables| #[trigger] apply_all(tables, ops@) == with_vectors(
                tables,
                root@,
                all.take(i + 1),
            ) by {
                assert(apply_all(tables, before) == with_vectors(tables, root@, all.take(i as int)));
            }
        }
        assert(all.take(all.len() as int) =~= all);
        self.pending = Vec::new();
        assert(embeddings_of(self.pending@) =~= Seq::<EmbeddingText>::empty());
        ops
    }

    /// Takes in a row of the older form: a vector that can be moved is held, and once a
    /// batch is full, the changes that write it are given back.
    pub fn offer(&mut self, root: &String, path: String, vector: Option<Vec<u32>>) -> (ops: Vec<CacheOp>)
        requires
            old(self).well_formed(),
        ensures
            final(self).well_formed(),
            ({
                let row = (PendingEmbedding { path, vector })@;
                let step = migration_step(old(self).held(), row);
                &&& final(self).held() == step.0
                &&& forall|tables: CacheTables| #[trigger]
                    apply_all(tables, ops@) == with_vectors(tables, root@, step.1)
            }),
    {
        let ghost before = embeddings_of(self.pending@);
        let movable: bool = match &vector {
            Some(vector) => vector.len() == VECTOR_DIMENSION,
            None => false,
        };
        if !movable {
            return Vec::new();
        }
        let ghost row = (PendingEmbedding { path, vector })@;
        self.pending.push(PendingEmbedding { path, vector });
        assert(embeddings_of(self.pending@) =~= before.push(row));
        if self.pending.len() >= MAX_PENDING_EMBEDDINGS {
            self.flush(root)
        } else {
            Vec::new()
        }
    }

    /// Ends the move: the changes that write what is still held, and note that the
    /// vectors of the folder have been moved.
    pub fn finish(self, root: &String) -> (ops: Vec<CacheOp>)
        ensures
            forall|tables: CacheTables| #[trigger]
                apply_all(tables, ops@) == ({
                    let moved = with_vectors(tables, root@, self.held());
                    CacheTables { migrated: moved.migrated.insert(root@), ..moved }
                }),
    {
        let mut rest: LegacyMigration = self;
        let mut ops: Vec<CacheOp> = rest.flush(root);
        let op: CacheOp = CacheOp::MarkMigrated { root: root.clone() };
        proof {
            lemma_apply_one_more(ops@, op);
        }
        ops.push(op);
        ops
    }
}

/// What is held once a row has been taken in, and what is written.
pub open spec fn migration_step(held: Seq<EmbeddingText>, row: EmbeddingText) -> (
    Seq<EmbeddingText>,
    Seq<EmbeddingText>,
) {
    if !is_movable(row) {
        (held, Seq::empty())
    } else if held.len() + 1 >= MAX_PENDING_EMBEDDINGS {
        (Seq::empty(), held.push(row))
    } else {
        (held.push(row), Seq::empty())
    }
}

/// What the tables have and what is held once rows have been taken in, one after the other.
pub open spec fn migrated_so_far(tables: CacheTables, root: Seq<char>, rows: Seq<EmbeddingText>) -> (
    CacheTables,
    Seq<EmbeddingText>,
)
    decreases rows.len(),
{
    if rows.len() == 0 {
        (tables, Seq::empty())
    } else {
        let (before, held) = migrated_so_far(tables, root, rows.drop_last());
        let step = migration_step(held, rows.last());
        (with_vectors(before, root, step.1), step.0)
    }
}

/// Writing vectors in two parts is writing them all.
proof fn lemma_vectors_in_parts(tables: CacheTables, root: Seq<char>, left: Seq<EmbeddingText>, right: Seq<
    EmbeddingText,
>)
    ensures
        with_vectors(with_vectors(tables, root, left), root, right) == with_vectors(tables, root, left + right),
    decreases right.len(),
{
    if right.len() == 0 {
        assert(left + right =~= left);
    } else {
        lemma_vectors_in_parts(tables, root, left, right.drop_last());
        assert((left + right).drop_last() =~= left + right.drop_last());
        assert((left + right).last() == right.last());
    }
}

/// Whatever the batches, once the move has ended every vector of the older form that can
/// be moved has been written, in the order of the rows, and less than a batch was ever held.
pub proof fn law_migration_moves_every_vector(tables: CacheTables, root: Seq<char>, rows: Seq<EmbeddingText>)
    ensures
        ({
            let (written, held) = migrated_so_far(tables, root, rows);
            &&& with_vectors(written, root, held) == with_vectors(
                tables,
                root,
                rows.filter(|row: EmbeddingText| is_movable(row)),
            )
            &&& held.len() < MAX_PENDING_EMBEDDINGS
        }),
    decreases rows.len(),
{
    reveal(Seq::filter);
    let movable = |row: EmbeddingText| is_movable(row);
    if rows.len() > 0 {
        let shorter = rows.drop_last();
        law_migration_moves_every_vector(tables, root, shorter);
        let (before, held) = migrated_so_far(tables, root, shorter);
        let last = rows.last();
        let step = migration_step(held, last);
        if is_movable(last) {
            assert(held.push(last) =~= held + seq![last]);
            lemma_vectors_in_parts(before, root, held, seq![last]);
            lemma_vectors_in_parts(tables, root, shorter.filter(movable), seq![last]);
            assert(rows.filter(movable) =~= shorter.filter(movable) + seq![last]);
        } else {
            assert(rows.filter(movable) =~= shorter.filter(movable));
        }
        assert(with_vectors(with_vectors(before, root, step.1), root, step.0) == with_vectors(
            tables,
            root,
            rows.filter(movable),
        ));
    } else {
        assert(rows.filter(movable) =~= Seq::<EmbeddingText>::empty());
    }
}

/// Once the move has ended, a folder of which a vector could be moved has vectors of pictures;
/// one that had some still has them.
pub proof fn law_moved_vectors_are_listed(tables: CacheTables, root: Seq<char>, rows: Seq<EmbeddingText>)
    requires
        lists_clip_vectors(tables, root) || exists|k: int| 0 <= k < rows.len() && is_movable(#[trigger] rows[k]),
    ensures
        ({
            let (written, held) = migrated_so_far(tables, root, rows);
            let moved = with_vectors(written, root, held);
            lists_clip_vectors(CacheTables { migrated: moved.migrated.insert(root), ..moved }, root)
        }),
{
    law_migration_moves_every_vector(tables, root, rows);
    let movable = |row: EmbeddingText| is_movable(row);
    let all = rows.filter(movable);
    let moved = with_vectors(tables, root, all);
    assert forall|k: int| 0 <= k < all.len() implies is_movable(#[trigger] all[k]) by {
        rows.lemma_filter_pred(movable, k);
    }
    lemma_movable_vectors_are_listed(tables, root, all);
    if exists|k: int| 0 <= k < rows.len() && is_movable(#[trigger] rows[k]) {
        let k = choose|k: int| 0 <= k < rows.len() && is_movable(#[trigger] rows[k]);
        rows.lemma_filter_contains(movable, k);
        assert(all.len() > 0);
    }
    assert(lists_clip_vectors(moved, root));
    let key = choose|key: VectorKey| #[trigger]
        moved.vectors.contains_key(key) && key.kind == "clip"@ && key.root == root;
    let marked = CacheTables { migrated: moved.migrated.insert(root), ..moved };
    assert(marked.vectors.contains_key(key));
}

/// Writing vectors that can be moved takes none out.
proof fn lemma_movable_vectors_are_listed(tables: CacheTables, root: Seq<char>, rows: Seq<EmbeddingText>)
    requires
        forall|k: int| 0 <= k < rows.len() ==> is_movable(#[trigger] rows[k]),
    ensures
        forall|key: VectorKey| #[trigger]
            tables.vectors.contains_key(key) ==> with_vectors(tables, root, rows).vectors.contains_key(key),
        rows.len() > 0 ==> with_vectors(tables, root, rows).vectors.contains_key(clip_key(root, rows.last().path)),
        rows.len() > 0 || lists_clip_vectors(tables, root) ==> lists_clip_vectors(
            with_vectors(tables, root, rows),
            root,
        ),
    decreases rows.len(),
{
    let after = with_vectors(tables, root, rows);
    if rows.len() > 0 {
        let shorter = rows.drop_last();
        assert forall|k: int| 0 <= k < shorter.len() implies is_movable(#[trigger] shorter[k]) by {
            assert(is_movable(rows[k]));
        }
        lemma_movable_vectors_are_listed(tables, root, shorter);
        assert(is_movable(rows[rows.len() - 1]));
        assert(after.vectors.contains_key(clip_key(root, rows.last().path)));
        assert(lists_clip_vectors(after, root));
    }
}

// ---------------------------------------------------------------------------
// What is on disk once changes have been made
// ---------------------------------------------------------------------------

/// A blob holds the numbers of a vector, four bytes each, the lowest first.
pub open spec fn holds_vector(blob: Seq<u8>, vector: Seq<u32>) -> bool {
    &&& blob.len() == 4 * vector.len()
    &&& forall|k: int|
        0 <= k < vector.len() ==> from_little_endian(blob.subrange(4 * k, 4 * k + 4)) == #[trigger] vector[k]
}

proof fn lemma_blob_holds_vector(vector: Seq<u32>)
    ensures
        holds_vector(blob_of(vector), vector),
{
    if vector.len() > 0 {
        law_blob_holds_the_vector(vector, 0);
        assert forall|k: int| 0 <= k < vector.len() implies from_little_endian(
            blob_of(vector).subrange(4 * k, 4 * k + 4),
        ) == #[trigger] vector[k] by {
            law_blob_holds_the_vector(vector, k);
        }
    }
}

/// The tables have of a picture of a folder all that its record holds, the fingerprint of its
/// file, its words, and its thumbnail, if it has one.
pub open spec fn keeps_record(
    tables: CacheTables,
    root: Seq<char>,
    record: ImageRecord,
    fingerprint: FileFingerprint,
) -> bool {
    let path = record.path@;
    let row = tables.images[path];
    let text = tables.texts[path];
    &&& tables.images.contains_key(path)
    &&& row.root == root
    &&& row.bytes == fingerprint.bytes
    &&& row.modified_ns == digits_of(fingerprint.modified_ns as nat)
    &&& row.captured_at == optional_text(record.captured_at)
    &&& row.record.filename == record.filename@
    &&& row.record.modified_at == record.modified_at@
    &&& row.record.captured_at == optional_text(record.captured_at)
    &&& row.record.width == record.width
    &&& row.record.height == record.height
    &&& row.record.ocr_text == record.ocr_text@
    &&& row.record.people == texts(record.people@)
    &&& row.record.face_group_ids == texts(record.face_group_ids@)
    &&& tables.texts.contains_key(path)
    &&& text.root == root
    &&& text.filename == record.filename@
    &&& text.ocr_text == record.ocr_text@
    &&& text.people == joined(texts(record.people@), " "@)
    &&& tables.seen.contains(SeenKey { root, path })
    &&& url_bytes(record.thumbnail@) is Some ==> tables.thumbnails.contains_key(path) && tables.thumbnails[path].root
        == root && tables.thumbnails[path].jpeg == url_bytes(record.thumbnail@)->0
}

proof fn lemma_record_is_kept(
    tables: CacheTables,
    root: Seq<char>,
    records: Seq<ImageRecord>,
    known: Map<Seq<char>, FileFingerprint>,
    at: int,
)
    requires
        0 <= at < records.len(),
        known.contains_key(records[at].path@),
        forall|k: int| at < k < records.len() ==> (#[trigger] records[k]).path@ != records[at].path@,
    ensures
        keeps_record(
            with_records(tables, root, images(records), known),
            root,
            records[at],
            known[records[at].path@],
        ),
    decreases records.len(),
{
    let all = images(records);
    let shorter = records.drop_last();
    let last = records[records.len() - 1];
    assert(all.drop_last() =~= images(shorter));
    assert(all.last() == last@);
    if at < shorter.len() {
        assert(shorter[at] == records[at]);
        assert forall|k: int| at < k < shorter.len() implies (#[trigger] shorter[k]).path@ != shorter[at].path@ by {
            assert(records[k].path@ != records[at].path@);
        }
        lemma_record_is_kept(tables, root, shorter, known, at);
        assert(last.path@ != records[at].path@);
    }
}

/// What is written of a batch is on disk: each record from the given one on whose file has a
/// fingerprint, the last one of those with the same path, with all that it holds; and each vector
/// of 512 numbers, number by number, while a picture without such a vector has none. Pictures
/// that are not in the batch are as they were.
pub proof fn law_a_batch_is_on_disk(
    root: &String,
    records: &Vec<ImageRecord>,
    from: usize,
    pending: &PendingWrites,
    ops: Vec<CacheOp>,
    tables: CacheTables,
    at: int,
    vector: int,
    other: Seq<char>,
)
    requires
        from <= records@.len(),
        pending.well_formed(),
        call_ensures(append_index_cache, (root, records, from, pending), ops),
    ensures
        from <= at < records@.len() && pending.known().contains_key(records@[at].path@) && (forall|k: int|
            at < k < records@.len() ==> (#[trigger] records@[k]).path@ != records@[at].path@) ==> keeps_record(
            apply_all(tables, ops@),
            root@,
            records@[at],
            pending.known()[records@[at].path@],
        ),
        0 <= vector < pending.vectors().len() ==> ({
            let entry = pending.vectors()[vector];
            let key = VectorKey { kind: "clip"@, root: root@, path: entry.path, group_id: ""@ };
            let after = apply_all(tables, ops@).vectors;
            &&& entry.vector is Some && entry.vector->0.len() == 512 ==> after.contains_key(key) && holds_vector(
                after[key],
                entry.vector->0,
            )
            &&& entry.vector is None || entry.vector->0.len() != 512 ==> !after.contains_key(key)
        }),
        (forall|k: int| from <= k < records@.len() ==> (#[trigger] records@[k]).path@ != other) ==> same_picture(
            tables,
            apply_all(tables, ops@),
            other,
        ),
{
    let batch = Batch {
        records: images(records@).skip(from as int),
        known: pending.known(),
        embeddings: pending.vectors(),
    };
    let part = records@.skip(from as int);
    assert(batch.records =~= images(part));
    let written = with_records(tables, root@, images(part), pending.known());
    let after = apply_all(tables, ops@);
    assert(after == with_vectors(written, root@, batch.embeddings));
    lemma_vectors_alone(written, root@, batch.embeddings);
    if from <= at < records@.len() && pending.known().contains_key(records@[at].path@) && (forall|k: int|
        at < k < records@.len() ==> (#[trigger] records@[k]).path@ != records@[at].path@) {
        assert(part[at - from] == records@[at]);
        assert forall|k: int| at - from < k < part.len() implies (#[trigger] part[k]).path@ != part[at - from].path@ by {
            assert(records@[from + k].path@ != records@[at].path@);
        }
        lemma_record_is_kept(tables, root@, part, pending.known(), at - from);
    }
    if 0 <= vector < pending.vectors().len() {
        let entry = pending.vectors()[vector];
        let key = clip_key(root@, entry.path);
        law_written_vectors_are_found(written, root@, pending.vectors(), key);
        if entry.vector is Some {
            lemma_blob_holds_vector(entry.vector->0);
        }
    }
    if forall|k: int| from <= k < records@.len() ==> (#[trigger] records@[k]).path@ != other {
        lemma_written_records(tables, root@, images(part), pending.known(), other);
        assert forall|k: int| 0 <= k < images(part).len() implies (#[trigger] images(part)[k]).path != other by {
            assert(records@[from + k].path@ != other);
        }
        assert(!is_written(images(part), pending.known(), other));
    }
}

/// After a scan that wrote a batch of pictures of a folder, the table of pictures has of the
/// folder exactly those that were written, and of other folders what it had. What was kept of a
/// picture that is gone is gone from the full-text index too.
pub proof fn law_a_scan_keeps_what_it_wrote(
    root: &String,
    records: &Vec<ImageRecord>,
    pending: &PendingWrites,
    begun: Vec<CacheOp>,
    written: Vec<CacheOp>,
    cleaned_up: Vec<CacheOp>,
    tables: CacheTables,
    path: Seq<char>,
)
    requires
        call_ensures(begin_scan_cache, (root,), begun),
        call_ensures(append_index_cache, (root, records, 0usize, pending), written),
        call_ensures(cleanup_stale_cache, (root,), cleaned_up),
    ensures
        ({
            let after = apply_all(apply_all(apply_all(tables, begun@), written@), cleaned_up@);
            let is_new = pending.known().contains_key(path) && exists|k: int|
                0 <= k < records@.len() && (#[trigger] records@[k]).path@ == path;
            let was_here = tables.images.contains_key(path) && tables.images[path].root == root@;
            &&& is_new ==> after.images.contains_key(path) && after.images[path].root == root@
            &&& is_new ==> after.texts.contains_key(path) && after.texts[path].root == root@
            &&& !is_new && was_here ==> !after.images.contains_key(path)
            &&& !is_new && tables.texts.contains_key(path) && tables.texts[path].root == root@
                ==> !after.texts.contains_key(path)
            &&& !is_new && tables.images.contains_key(path) && !was_here ==> after.images.contains_key(path)
                && after.images[path] == tables.images[path]
            &&& !after.seen.contains(SeenKey { root: root@, path })
            &&& !after.states.contains_key(root@)
        }),
{
    let start = apply_all(tables, begun@);
    let all = images(records@);
    assert(all.skip(0) =~= all);
    let batch = Batch { records: all, known: pending.known(), embeddings: pending.vectors() };
    let middle = with_records(start, root@, all, pending.known());
    let full = apply_all(start, written@);
    assert(full == with_batch(start, root@, batch));
    lemma_vectors_alone(middle, root@, batch.embeddings);
    lemma_written_records(start, root@, all, pending.known(), path);
    lemma_written_texts(start, root@, all, pending.known(), path);
    assert(!start.seen.contains(SeenKey { root: root@, path }));
    let is_new = pending.known().contains_key(path) && exists|k: int|
        0 <= k < records@.len() && (#[trigger] records@[k]).path@ == path;
    assert(is_new == is_written(all, pending.known(), path)) by {
        if is_new {
            let k = choose|k: int| 0 <= k < records@.len() && (#[trigger] records@[k]).path@ == path;
            assert(all[k].path == path);
        }
        if is_written(all, pending.known(), path) {
            let k = choose|k: int| 0 <= k < all.len() && (#[trigger] all[k]).path == path;
            assert(records@[k].path@ == path);
        }
    }
    lemma_states_stay(start, root@, all, pending.known());
}

/// Writing records puts their words under the folder.
proof fn lemma_written_texts(
    tables: CacheTables,
    root: Seq<char>,
    records: Seq<ImageText>,
    known: Map<Seq<char>, FileFingerprint>,
    path: Seq<char>,
)
    ensures
        is_written(records, known, path) ==> with_records(tables, root, records, known).texts.contains_key(path)
            && with_records(tables, root, records, known).texts[path].root == root,
    decreases records.len(),
{
    if records.len() > 0 {
        let shorter = records.drop_last();
        lemma_written_texts(tables, root, shorter, known, path);
        let last = records[records.len() - 1];
        if is_written(records, known, path) && last.path != path {
            let k = choose|k: int| 0 <= k < records.len() && (#[trigger] records[k]).path == path;
            assert(shorter[k].path == path);
        }
    }
}

proof fn lemma_states_stay(
    tables: CacheTables,
    root: Seq<char>,
    records: Seq<ImageText>,
    known: Map<Seq<char>, FileFingerprint>,
)
    ensures
        with_records(tables, root, records, known).states == tables.states,
    decreases records.len(),
{
    if records.len() > 0 {
        lemma_states_stay(tables, root, records.drop_last(), known);
    }
}

/// A picture that was written is recognized again: the row that was written of it gives back its
/// fingerprint, whatever record it was read as.
pub proof fn law_fingerprints_are_read_back(
    fingerprint: FileFingerprint,
    modified_ns: &str,
    record: CachedImageRecord,
    thumbnail_available: bool,
    image: Option<CachedImage>,
)
    requires
        modified_ns@ == digits_of(fingerprint.modified_ns as nat),
        call_ensures(read_cached_image, (fingerprint.bytes, modified_ns, Some(record), thumbnail_available), image),
    ensures
        image is Some,
        image->0.fingerprint.bytes == fingerprint.bytes,
        image->0.fingerprint.modified_ns == fingerprint.modified_ns,
        image->0.record == record,
        image->0.thumbnail_available == thumbnail_available,
{
    law_written_number_is_read_back(fingerprint.modified_ns as nat, u128::MAX as nat);
}

/// Changes one after the other, each of them whole.
pub open spec fn apply_changes(tables: CacheTables, changes: Seq<Vec<CacheOp>>) -> CacheTables
    decreases changes.len(),
{
    if changes.len() == 0 {
        tables
    } else {
        apply_all(apply_changes(tables, changes.drop_last()), changes.last()@)
    }
}

/// Closing changes come to the steps that they are made of.
proof fn lemma_changes_are_steps(
    changes: Seq<Vec<CacheOp>>,
    steps: Seq<ClosingStep>,
    root: Seq<char>,
    groups: Seq<ClusterText>,
    tables: CacheTables,
)
    requires
        changes.len() == steps.len(),
        forall|k: int, before: CacheTables|
            0 <= k < changes.len() ==> #[trigger] apply_all(before, changes[k]@) == closed(
                before,
                steps[k],
                root,
                groups,
            ),
    ensures
        apply_changes(tables, changes) == closed_by(tables, steps, root, groups),
    decreases changes.len(),
{
    if changes.len() > 0 {
        let shorter = changes.drop_last();
        let fewer = steps.drop_last();
        assert forall|k: int, before: CacheTables| 0 <= k < shorter.len() implies #[trigger] apply_all(
            before,
            shorter[k]@,
        ) == closed(before, fewer[k], root, groups) by {
            assert(apply_all(before, changes[k]@) == closed(before, steps[k], root, groups));
        }
        lemma_changes_are_steps(shorter, fewer, root, groups, tables);
        let last = changes.len() - 1;
        let before = apply_changes(tables, shorter);
        assert(apply_all(before, changes[last]@) == closed(before, steps[last], root, groups));
    }
}

/// What closing steps make of the tables, one after the other.
spec fn closed_by(
    tables: CacheTables,
    steps: Seq<ClosingStep>,
    root: Seq<char>,
    groups: Seq<ClusterText>,
) -> CacheTables
    decreases steps.len(),
{
    if steps.len() == 0 {
        tables
    } else {
        closed(closed_by(tables, steps.drop_last(), root, groups), steps.last(), root, groups)
    }
}

/// Ending a scan keeps of a picture that was seen, or of another folder, its row, its words, its
/// thumbnail and its vector. One of the folder that was not seen loses all of them where all that
/// was seen has been written, and keeps its row and its words where it has not. The groups of
/// faces are kept as they are given.
pub proof fn law_ending_a_scan_keeps_what_was_seen(
    root: &String,
    all_written: bool,
    face_groups: &Vec<FaceCluster>,
    changes: Vec<Vec<CacheOp>>,
    tables: CacheTables,
    path: Seq<char>,
)
    requires
        call_ensures(closing_changes, (root, all_written, face_groups), changes),
    ensures
        ({
            let after = apply_changes(tables, changes@);
            let key = VectorKey { kind: "clip"@, root: root@, path, group_id: ""@ };
            let here = tables.images.contains_key(path) && tables.images[path].root == root@;
            let seen = tables.seen.contains(SeenKey { root: root@, path });
            &&& tables.images.contains_key(path) && (!here || seen || !all_written) ==> after.images.contains_key(path)
                && after.images[path] == tables.images[path]
            &&& here && (seen || !all_written) && tables.texts.contains_key(path) ==> after.texts.contains_key(path)
                && after.texts[path] == tables.texts[path]
            &&& here && (seen || !all_written) && tables.thumbnails.contains_key(path)
                ==> after.thumbnails.contains_key(path) && after.thumbnails[path] == tables.thumbnails[path]
            &&& here && (seen || !all_written) && tables.vectors.contains_key(key) ==> after.vectors.contains_key(key)
                && after.vectors[key] == tables.vectors[key]
            &&& here && !seen && all_written ==> !after.images.contains_key(path) && !after.vectors.contains_key(key)
            &&& here && !seen && all_written && tables.thumbnails.contains_key(path) && tables.thumbnails[path].root
                == root@ ==> !after.thumbnails.contains_key(path)
            &&& after.states.contains_key(root@) && after.states[root@] == clusters_of(face_groups@)
        }),
{
    let groups = clusters_of(face_groups@);
    let steps = closing_steps(all_written);
    assert(changes@.len() == steps.len());
    assert forall|k: int, before: CacheTables| 0 <= k < changes@.len() implies #[trigger] apply_all(
        before,
        changes@[k]@,
    ) == closed(before, steps[k], root@, groups) by {}
    lemma_changes_are_steps(changes@, steps, root@, groups, tables);
    let first = if all_written {
        closed(tables, ClosingStep::Pictures, root@, groups)
    } else {
        tables
    };
    let second = closed(first, ClosingStep::Thumbnails, root@, groups);
    let third = closed(second, ClosingStep::Vectors, root@, groups);
    let fourth = closed(third, ClosingStep::FaceVectors, root@, groups);
    let fifth = closed(fourth, ClosingStep::Groups, root@, groups);
    let one = seq![ClosingStep::Thumbnails];
    let two = seq![ClosingStep::Thumbnails, ClosingStep::Vectors];
    let three = seq![ClosingStep::Thumbnails, ClosingStep::Vectors, ClosingStep::FaceVectors];
    let four = seq![ClosingStep::Thumbnails, ClosingStep::Vectors, ClosingStep::FaceVectors, ClosingStep::Groups];
    let start = if all_written {
        seq![ClosingStep::Pictures]
    } else {
        Seq::empty()
    };
    reveal_with_fuel(closed_by, 3);
    assert(start.drop_last() =~= Seq::<ClosingStep>::empty() || !all_written);
    assert(closed_by(tables, start, root@, groups) == first);
    assert((start + one).drop_last() =~= start);
    assert(closed_by(tables, start + one, root@, groups) == second);
    assert((start + two).drop_last() =~= start + one);
    assert(closed_by(tables, start + two, root@, groups) == third);
    assert((start + three).drop_last() =~= start + two);
    assert(closed_by(tables, start + three, root@, groups) == fourth);
    assert((start + four).drop_last() =~= start + three);
    assert(closed_by(tables, start + four, root@, groups) == fifth);
    assert(steps =~= start + four);
    reveal_strlit("clip");
    reveal_strlit("face");
    let key = clip_key(root@, path);
    assert("clip"@[0] != "face"@[0]);
    lemma_groups_leave_pictures(third.vectors, root@, groups, key);
}

/// Putting in the centres of groups leaves the vectors of pictures as they are.
proof fn lemma_groups_leave_pictures(
    vectors: Map<VectorKey, Seq<u8>>,
    root: Seq<char>,
    groups: Seq<ClusterText>,
    key: VectorKey,
)
    requires
        key.kind != "face"@,
    ensures
        ({
            let after = with_groups(without_groups(vectors, root), root, groups);
            &&& after.contains_key(key) == vectors.contains_key(key)
            &&& vectors.contains_key(key) ==> after[key] == vectors[key]
        }),
    decreases groups.len(),
{
    if groups.len() > 0 {
        lemma_groups_leave_pictures(vectors, root, groups.drop_last(), key);
    }
}

/// The vector index holds of the groups of faces of a folder exactly the centres of 512 numbers
/// of the groups that are given, number by number, and all other vectors as they were.
pub proof fn law_centres_of_groups_are_listed(
    root: &String,
    face_groups: &Vec<FaceCluster>,
    ops: Vec<CacheOp>,
    tables: CacheTables,
    at: int,
    other: VectorKey,
)
    requires
        call_ensures(sync_face_vectors, (root, face_groups), ops),
    ensures
        0 <= at < face_groups@.len() && (forall|k: int|
            at < k < face_groups@.len() ==> (#[trigger] face_groups@[k]).id@ != face_groups@[at].id@) ==> ({
            let key = VectorKey { kind: "face"@, root: root@, path: ""@, group_id: face_groups@[at].id@ };
            let after = apply_all(tables, ops@).vectors;
            &&& face_groups@[at].centroid@.len() == 512 ==> after.contains_key(key) && holds_vector(
                after[key],
                face_groups@[at].centroid@,
            )
            &&& face_groups@[at].centroid@.len() != 512 ==> !after.contains_key(key)
        }),
        other.kind != "face"@ || other.root != root@ ==> apply_all(tables, ops@).vectors.contains_key(other)
            == tables.vectors.contains_key(other) && (tables.vectors.contains_key(other) ==> apply_all(
            tables,
            ops@,
        ).vectors[other] == tables.vectors[other]),
        apply_all(tables, ops@).images == tables.images,
{
    let groups = clusters_of(face_groups@);
    let start = without_groups(tables.vectors, root@);
    if 0 <= at < face_groups@.len() && (forall|k: int|
        at < k < face_groups@.len() ==> (#[trigger] face_groups@[k]).id@ != face_groups@[at].id@) {
        assert(groups[at] == face_groups@[at]@);
        assert forall|k: int| at < k < groups.len() implies (#[trigger] groups[k]).id != groups[at].id by {
            assert(face_groups@[k].id@ != face_groups@[at].id@);
        }
        lemma_group_is_listed(start, root@, groups, at);
        lemma_blob_holds_vector(face_groups@[at].centroid@);
    }
    if other.kind != "face"@ || other.root != root@ {
        lemma_other_vectors_stay(start, root@, groups, other);
    }
}

proof fn lemma_group_is_listed(vectors: Map<VectorKey, Seq<u8>>, root: Seq<char>, groups: Seq<ClusterText>, at: int)
    requires
        0 <= at < groups.len(),
        forall|k: int| at < k < groups.len() ==> (#[trigger] groups[k]).id != groups[at].id,
    ensures
        ({
            let after = with_groups(vectors, root, groups);
            let key = face_key(root, groups[at].id);
            &&& groups[at].centroid.len() == 512 ==> after.contains_key(key) && after[key] == blob_of(
                groups[at].centroid,
            )
            &&& groups[at].centroid.len() != 512 ==> !after.contains_key(key)
        }),
    decreases groups.len(),
{
    let shorter = groups.drop_last();
    if at < shorter.len() {
        assert(shorter[at] == groups[at]);
        assert forall|k: int| at < k < shorter.len() implies (#[trigger] shorter[k]).id != shorter[at].id by {
            assert(groups[k].id != groups[at].id);
        }
        lemma_group_is_listed(vectors, root, shorter, at);
        assert(groups[groups.len() - 1].id != groups[at].id);
    }
}

proof fn lemma_other_vectors_stay(
    vectors: Map<VectorKey, Seq<u8>>,
    root: Seq<char>,
    groups: Seq<ClusterText>,
    other: VectorKey,
)
    requires
        other.kind != "face"@ || other.root != root,
    ensures
        with_groups(vectors, root, groups).contains_key(other) == vectors.contains_key(other),
        vectors.contains_key(other) ==> with_groups(vectors, root, groups)[other] == vectors[other],
    decreases groups.len(),
{
    if groups.len() > 0 {
        lemma_other_vectors_stay(vectors, root, groups.drop_last(), other);
    }
}

/// A vector of 512 numbers of the older form that was taken in is in the vector index, number by
/// number, once the move has ended, and the folder is noted as moved.
pub proof fn law_old_vectors_are_moved(
    migration: &mut LegacyMigration,
    root: &String,
    path: String,
    vector: Vec<u32>,
    taken_in: Vec<CacheOp>,
    rest: LegacyMigration,
    ended: Vec<CacheOp>,
    tables: CacheTables,
)
    requires
        old(migration).well_formed(),
        vector@.len() == 512,
        call_ensures(LegacyMigration::offer, (migration, root, path, Some(vector)), taken_in),
        rest == *final(migration),
        call_ensures(LegacyMigration::finish, (rest, root), ended),
    ensures
        ({
            let key = VectorKey { kind: "clip"@, root: root@, path: path@, group_id: ""@ };
            let after = apply_all(apply_all(tables, taken_in@), ended@);
            &&& after.vectors.contains_key(key)
            &&& holds_vector(after.vectors[key], vector@)
            &&& after.migrated.contains(root@)
            &&& after.images == tables.images
        }),
{
    let held = old(migration).held();
    let row = EmbeddingText { path: path@, vector: Some(vector@) };
    assert((PendingEmbedding { path, vector: Some(vector) })@ == row);
    let step = migration_step(held, row);
    let first = apply_all(tables, taken_in@);
    assert(first == with_vectors(tables, root@, step.1));
    let moved = with_vectors(first, root@, step.0);
    lemma_vectors_in_parts(tables, root@, step.1, step.0);
    assert(step.1 + step.0 =~= held.push(row));
    assert(held.push(row).drop_last() =~= held);
    assert(held.push(row).last() == row);
    lemma_vectors_alone(tables, root@, held.push(row));
    lemma_blob_holds_vector(vector@);
}

/// A vector can be looked for exactly where it has 512 numbers, and the vectors of a folder are
/// to be moved exactly until it has been noted that they were.
pub proof fn law_vectors_have_one_length(length: usize, searchable: bool, noted: i64, needed: bool)
    requires
        call_ensures(is_searchable, (length,), searchable),
        call_ensures(needs_migration, (noted,), needed),
    ensures
        searchable == (length == 512),
        needed == (noted == 0),
{
}

/// What a batch writes of a record is there.
pub proof fn lemma_batch_is_kept(
    tables: CacheTables,
    root: Seq<char>,
    records: Seq<ImageRecord>,
    known: Map<Seq<char>, FileFingerprint>,
    embeddings: Seq<EmbeddingText>,
    at: int,
)
    requires
        0 <= at < records.len(),
        known.contains_key(records[at].path@),
        forall|k: int| at < k < records.len() ==> (#[trigger] records[k]).path@ != records[at].path@,
    ensures
        keeps_record(
            with_batch(tables, root, Batch { records: images(records), known, embeddings }),
            root,
            records[at],
            known[records[at].path@],
        ),
{
    lemma_record_is_kept(tables, root, records, known, at);
    lemma_vectors_alone(with_records(tables, root, images(records), known), root, embeddings);
}

/// The groups of faces of a folder are kept as they are given.
pub proof fn law_groups_are_kept(root: &String, face_groups: Vec<FaceCluster>, ops: Vec<CacheOp>, tables: CacheTables)
    requires
        call_ensures(save_index_cache_state, (root, face_groups), ops),
    ensures
        apply_all(tables, ops@).states.contains_key(root@),
        apply_all(tables, ops@).states[root@] == clusters_of(face_groups@),
        apply_all(tables, ops@).images == tables.images,
        apply_all(tables, ops@).vectors == tables.vectors,
{
}

/// There are vectors of pictures exactly where there is a cache, a folder, and the table says so.
pub proof fn law_the_table_tells_of_vectors(has_cache: bool, root: &Option<String>, answer: Option<i64>, found: bool)
    requires
        call_ensures(has_clip_vectors, (has_cache, root, answer), found),
    ensures
        found ==> has_cache && *root is Some && answer is Some && answer->0 != 0,
        has_cache && *root is Some && answer is Some && answer->0 != 0 ==> found,
{
}

/// A vector that is set for a path is the one to be written for it, in place of any before; the
/// vectors of other paths stay, and so do all fingerprints.
pub proof fn law_the_last_vector_of_a_path_counts(
    pending: &mut PendingWrites,
    path: String,
    vector: Option<Vec<u32>>,
    other: EmbeddingText,
)
    requires
        old(pending).well_formed(),
        call_ensures(PendingWrites::set_embedding, (pending, path, vector), ()),
    ensures
        other.path != path@ ==> final(pending).vectors().contains(other) == old(pending).vectors().contains(other),
        other.path == path@ ==> final(pending).vectors().contains(other) == (other.vector is Some == vector is Some && (
        vector is Some ==> other.vector->0 == vector->0@)),
        final(pending).known() == old(pending).known(),
{
    let before = old(pending).vectors();
    let after = final(pending).vectors();
    let added = EmbeddingText {
        path: path@,
        vector: match vector {
            Some(vector) => Some(vector@),
            None => None,
        },
    };
    assert(after == with_vector(before, added));
    if exists|k: int| 0 <= k < before.len() && (#[trigger] before[k]).path == added.path {
        let at = choose|k: int| 0 <= k < before.len() && (#[trigger] before[k]).path == added.path;
        lemma_with_vector_at(before, added, at);
        assert(after[at] == added);
        if before.contains(other) && other.path != path@ {
            let k = choose|k: int| 0 <= k < before.len() && before[k] == other;
            assert(after[k] == other);
        }
        if after.contains(other) && other.path != path@ {
            let k = choose|k: int| 0 <= k < after.len() && after[k] == other;
            assert(before[k] == other);
        }
        if after.contains(other) && other.path == path@ {
            let k = choose|k: int| 0 <= k < after.len() && after[k] == other;
            if k < at {
                assert(after[k].path != after[at].path);
            } else if at < k {
                assert(after[at].path != after[k].path);
            }
        }
    } else {
        assert(after[before.len() as int] == added);
        if before.contains(other) {
            let k = choose|k: int| 0 <= k < before.len() && before[k] == other;
            assert(after[k] == other);
        }
        if after.contains(other) {
            let k = choose|k: int| 0 <= k < after.len() && after[k] == other;
            if k < before.len() {
                assert(before[k] == other);
            }
        }
    }
    if other.path == path@ && other.vector is Some == vector is Some && (vector is Some ==> other.vector->0
        == vector->0@) {
        assert(other == added);
    }
}

/// A fingerprint that is taken in is known under its path, and all others stay.
pub proof fn law_fingerprints_are_taken_in(
    pending: &mut PendingWrites,
    path: String,
    fingerprint: FileFingerprint,
    other: Seq<char>,
)
    requires
        call_ensures(PendingWrites::add_fingerprint, (pending, path, fingerprint), ()),
    ensures
        final(pending).known().contains_key(path@),
        final(pending).known()[path@] == fingerprint,
        other != path@ ==> final(pending).known().contains_key(other) == old(pending).known().contains_key(other),
        other != path@ && old(pending).known().contains_key(other) ==> final(pending).known()[other] == old(
            pending).known()[other],
        final(pending).vectors() == old(pending).vectors(),
{
}

/// Once a batch is on disk the thumbnails of its records are let go of, those of the records whose
/// files have a fingerprint; whatever else a record holds stays, and so do the records before the
/// batch. Nothing is left to be written then. Without a cache all stays as it is.
pub proof fn law_written_thumbnails_are_let_go_of(
    records: &mut Vec<ImageRecord>,
    from: usize,
    pending: &mut PendingWrites,
    has_cache: bool,
    at: int,
)
    requires
        from <= old(records)@.len(),
        call_ensures(release_written, (records, from, pending, has_cache), ()),
        0 <= at < old(records)@.len(),
    ensures
        final(records)@.len() == old(records)@.len(),
        has_cache && from <= at && old(pending).known().contains_key(old(records)@[at].path@)
            ==> final(records)@[at].thumbnail@.len() == 0,
        !has_cache || at < from || !old(pending).known().contains_key(old(records)@[at].path@)
            ==> final(records)@[at].thumbnail@ == old(records)@[at].thumbnail@,
        final(records)@[at].id@ == old(records)@[at].id@,
        final(records)@[at].path@ == old(records)@[at].path@,
        final(records)@[at].filename@ == old(records)@[at].filename@,
        final(records)@[at].modified_at@ == old(records)@[at].modified_at@,
        final(records)@[at].captured_at is Some == old(records)@[at].captured_at is Some,
        old(records)@[at].captured_at is Some ==> final(records)@[at].captured_at->0@
            == old(records)@[at].captured_at->0@,
        final(records)@[at].width == old(records)@[at].width,
        final(records)@[at].height == old(records)@[at].height,
        final(records)@[at].ocr_text@ == old(records)@[at].ocr_text@,
        texts(final(records)@[at].people@) == texts(old(records)@[at].people@),
        texts(final(records)@[at].face_group_ids@) == texts(old(records)@[at].face_group_ids@),
        final(records)@[at].score == old(records)@[at].score,
        has_cache ==> final(pending).vectors().len() == 0 && final(pending).known().dom() == Set::<Seq<char>>::empty(),
        !has_cache ==> final(pending).vectors() == old(pending).vectors() && final(pending).known()
            == old(pending).known(),
{
    let before = old(records)@[at]@;
    let after = final(records)@[at]@;
    assert(after.path == before.path);
    assert(after.captured_at == before.captured_at);
    if has_cache {
        assert(final(pending).known().dom() =~= Set::<Seq<char>>::empty());
    }
}

/// A thumbnail stays exactly where it belongs to another folder or its picture is still there, and
/// a vector of a picture likewise.
pub proof fn law_what_has_no_picture_is_dropped(
    root: &String,
    ops: Vec<CacheOp>,
    vector_ops: Vec<CacheOp>,
    tables: CacheTables,
    path: Seq<char>,
    key: VectorKey,
)
    requires
        call_ensures(cleanup_stale_thumbnails, (root,), ops),
        call_ensures(cleanup_stale_clip_vectors, (root,), vector_ops),
    ensures
        ({
            let after = apply_all(tables, ops@).thumbnails;
            let there = tables.images.contains_key(path) && tables.images[path].root == root@;
            &&& after.contains_key(path) ==> tables.thumbnails.contains_key(path) && after[path]
                == tables.thumbnails[path]
            &&& tables.thumbnails.contains_key(path) && tables.thumbnails[path].root != root@ ==> after.contains_key(
                path,
            )
            &&& tables.thumbnails.contains_key(path) && there ==> after.contains_key(path)
            &&& tables.thumbnails.contains_key(path) && tables.thumbnails[path].root == root@ && !there
                ==> !after.contains_key(path)
        }),
        ({
            let after = apply_all(tables, vector_ops@).vectors;
            let there = tables.images.contains_key(key.path) && tables.images[key.path].root == root@;
            &&& after.contains_key(key) ==> tables.vectors.contains_key(key) && after[key] == tables.vectors[key]
            &&& tables.vectors.contains_key(key) && (key.root != root@ || key.kind != "clip"@) ==> after.contains_key(
                key,
            )
            &&& tables.vectors.contains_key(key) && there ==> after.contains_key(key)
            &&& tables.vectors.contains_key(key) && key.root == root@ && key.kind == "clip"@ && !there
                ==> !after.contains_key(key)
        }),
{
    assert(apply_all(tables, ops@).thumbnails.contains_key(path) || !apply_all(
        tables,
        ops@,
    ).thumbnails.contains_key(path));
    assert(apply_all(tables, vector_ops@).vectors.contains_key(key) || !apply_all(
        tables,
        vector_ops@,
    ).vectors.contains_key(key));
}

/// A vector of 512 numbers takes the place of the one that is there: its bytes, four for each
/// number and the lowest first, are what is kept under the key. One of any other length takes the
/// one that is there out. What is kept under other keys stays.
pub proof fn law_a_vector_takes_its_place(
    row: Option<i64>,
    vector: &Vec<u32>,
    steps: Vec<VectorStep>,
    tables: VectorTables,
    key: VectorKey,
    other: VectorKey,
    fresh: int,
    blob: Seq<u8>,
    bytes: Seq<u8>,
)
    requires
        call_ensures(upsert_vector_entry, (row, vector), steps),
        tables.well_formed(),
        tables.found(key, row),
        !tables.entries.contains_key(fresh),
        other != key,
        blob.len() == 4 * vector@.len(),
        forall|k: int|
            0 <= k < vector@.len() ==> #[trigger] vector@[k] == blob[4 * k] + 256 * blob[4 * k + 1] + 65536 * blob[4 * k
                + 2] + 16777216 * blob[4 * k + 3],
    ensures
        vector@.len() == 512 ==> step_all(tables, steps@, key, fresh).has(key, blob),
        vector@.len() != 512 ==> !step_all(tables, steps@, key, fresh).has(key, bytes),
        step_all(tables, steps@, key, fresh).has(other, bytes) == tables.has(other, bytes),
        step_all(tables, steps@, key, fresh).well_formed(),
{
    lemma_bytes_of_vector(vector@, blob);
    let after = step_all(tables, steps@, key, fresh);
    assert(after.has(other, bytes) == tables.has(other, bytes));
}

/// Taking a vector out leaves nothing under its key, and what is under other keys stays.
pub proof fn law_a_vector_is_taken_out(
    row: Option<i64>,
    steps: Vec<VectorStep>,
    tables: VectorTables,
    key: VectorKey,
    other: VectorKey,
    fresh: int,
    bytes: Seq<u8>,
)
    requires
        call_ensures(delete_vector_entry, (row,), steps),
        tables.well_formed(),
        tables.found(key, row),
        other != key,
    ensures
        !step_all(tables, steps@, key, fresh).has(key, bytes),
        step_all(tables, steps@, key, fresh).has(other, bytes) == tables.has(other, bytes),
        step_all(tables, steps@, key, fresh).well_formed(),
{
    let after = step_all(tables, steps@, key, fresh);
    assert(takes_out(steps@, row));
    assert(after.has(other, bytes) == tables.has(other, bytes));
}

/// The vector extension is registered exactly where SQLite says so by the code 0, and any other code is
/// told.
pub proof fn law_failed_registrations_are_told(code: i32, result: Result<(), String>, number: &mut Vec<char>)
    requires
        call_ensures(register_sqlite_vec, (code,), result),
        old(number)@.len() == 0,
        call_ensures(push_padded, (number, code as i64, 1usize), ()),
    ensures
        result is Ok <==> code == 0,
        result is Err ==> result->Err_0@ == "無法註冊 sqlite-vec SQLite 擴充功能（錯誤碼 "@
            + final(number)@ + "）。"@,
{
    assert(final(number)@ =~= padded(code as int, 1));
}

/// Nothing is waiting to be written at first, nor once all is forgotten.
pub proof fn law_nothing_waits_at_first(
    fresh: PendingWrites,
    cleared: &mut PendingWrites,
    path: Seq<char>,
    count: usize,
    pending: &PendingWrites,
)
    requires
        call_ensures(PendingWrites::new, (), fresh),
        call_ensures(PendingWrites::clear, (cleared,), ()),
        call_ensures(PendingWrites::vector_count, (pending,), count),
    ensures
        fresh.vectors().len() == 0,
        !fresh.known().contains_key(path),
        final(cleared).vectors().len() == 0,
        !final(cleared).known().contains_key(path),
        count == pending.vectors().len(),
{
}

} // verus!
