//! Incremental indexing: which documents to rewrite, which to keep and which
//! to drop, and the chunk rows of the rewritten ones.
use vstd::prelude::*;

use crate::config::AppConfig;
use crate::hash::{decimal, push_decimal, sha256_hex, spec_sha256_hex};
use crate::markdown::{chunk_document, has_text_paragraph, has_text_paragraphs, spec_chunk_document};
use crate::model::{
    drafts_view, ChunkDraft, ChunkSpec, DocumentManifest, DocumentText, IndexStats,
    MarkdownDocument,
};
use crate::text::{chars_of, push_all, string_of};
use vstd::utf8::encode_utf8;

verus! {

/// A chunk as the index stores it, but for its embedding.
pub struct ChunkRow {
    pub chunk_id: String,
    pub doc_path: String,
    pub ordinal: usize,
    pub heading_path: String,
    pub chunk_hash: String,
    pub text: String,
}

pub struct RowSpec {
    pub chunk_id: Seq<char>,
    pub doc_path: Seq<char>,
    pub ordinal: nat,
    pub heading_path: Seq<char>,
    pub chunk_hash: Seq<char>,
    pub text: Seq<char>,
}

impl View for ChunkRow {
    type V = RowSpec;

    open spec fn view(&self) -> RowSpec {
        RowSpec {
            chunk_id: self.chunk_id@,
            doc_path: self.doc_path@,
            ordinal: self.ordinal as nat,
            heading_path: self.heading_path@,
            chunk_hash: self.chunk_hash@,
            text: self.text@,
        }
    }
}

/// A document to write into the index: its path, the hash of its content and
/// its chunk rows.
pub struct DocumentUpdate {
    pub doc_path: String,
    pub file_hash: String,
    pub chunks: Vec<ChunkRow>,
}

pub struct UpdateSpec {
    pub doc_path: Seq<char>,
    pub file_hash: Seq<char>,
    pub chunks: Seq<RowSpec>,
}

impl View for DocumentUpdate {
    type V = UpdateSpec;

    open spec fn view(&self) -> UpdateSpec {
        UpdateSpec {
            doc_path: self.doc_path@,
            file_hash: self.file_hash@,
            chunks: Seq::new(self.chunks@.len(), |j: int| self.chunks@[j]@),
        }
    }
}

/// What a reindex run does: how many documents it looked at and kept, the
/// documents it rewrites and the paths it drops from the index.
pub struct IndexPlan {
    pub scanned_docs: usize,
    pub skipped_docs: usize,
    pub updates: Vec<DocumentUpdate>,
    pub deleted_paths: Vec<String>,
}

pub struct PlanSpec {
    pub scanned: nat,
    pub skipped: nat,
    pub updates: Seq<UpdateSpec>,
    pub deleted: Seq<Seq<char>>,
}

impl View for IndexPlan {
    type V = PlanSpec;

    open spec fn view(&self) -> PlanSpec {
        PlanSpec {
            scanned: self.scanned_docs as nat,
            skipped: self.skipped_docs as nat,
            updates: Seq::new(self.updates@.len(), |i: int| self.updates@[i]@),
            deleted: Seq::new(self.deleted_paths@.len(), |i: int| self.deleted_paths@[i]@),
        }
    }
}

/// The views of a sequence of documents.
pub open spec fn docs_view(v: Seq<MarkdownDocument>) -> Seq<DocumentText> {
    Seq::new(v.len(), |i: int| v[i]@)
}

/// A manifest table as text: path, then file hash and fingerprint.
pub open spec fn manifests_view(v: Seq<(String, DocumentManifest)>) -> Seq<
    (Seq<char>, (Seq<char>, Seq<char>)),
> {
    Seq::new(v.len(), |i: int| (v[i].0@, v[i].1@))
}

/// The hash of a document: SHA-256 of its UTF-8 bytes, in hex.
pub open spec fn file_hash_of(content: Seq<char>) -> Seq<char> {
    spec_sha256_hex(encode_utf8(content))
}

/// What a chunk id is the hash of: path, ordinal, heading path and chunk
/// hash, separated by `':'`.
pub open spec fn chunk_id_source(
    path: Seq<char>,
    ordinal: nat,
    heading: Seq<char>,
    chunk_hash: Seq<char>,
) -> Seq<char> {
    path + seq![':'] + decimal(ordinal) + seq![':'] + heading + seq![':'] + chunk_hash
}

/// The row of the chunk at `ordinal` of the document at `path`.
pub open spec fn spec_chunk_row(path: Seq<char>, ordinal: nat, c: ChunkSpec) -> RowSpec {
    let h = spec_sha256_hex(encode_utf8(c.text));
    RowSpec {
        chunk_id: spec_sha256_hex(encode_utf8(chunk_id_source(path, ordinal, c.heading_path, h))),
        doc_path: path,
        ordinal: ordinal,
        heading_path: c.heading_path,
        chunk_hash: h,
        text: c.text,
    }
}

/// The rows of the chunks of a document, numbered from zero.
pub open spec fn spec_rows(path: Seq<char>, cs: Seq<ChunkSpec>) -> Seq<RowSpec> {
    Seq::new(cs.len(), |i: int| spec_chunk_row(path, i as nat, cs[i]))
}

/// The manifest of `path`: the last entry for it, as a map filled in order
/// keeps it.
pub open spec fn lookup(ms: Seq<(Seq<char>, (Seq<char>, Seq<char>))>, path: Seq<char>) -> Option<
    (Seq<char>, Seq<char>),
>
    decreases ms.len(),
{
    if ms.len() == 0 {
        None
    } else if ms.last().0 == path {
        Some(ms.last().1)
    } else {
        lookup(ms.drop_last(), path)
    }
}

/// Whether the index already holds `doc` as it is, under the same
/// embedding fingerprint.
pub open spec fn unchanged(
    ms: Seq<(Seq<char>, (Seq<char>, Seq<char>))>,
    doc: DocumentText,
    fp: Seq<char>,
) -> bool {
    lookup(ms, doc.relative_path) == Some((file_hash_of(doc.content), fp))
}

/// What is written for a changed document.
pub open spec fn spec_update(doc: DocumentText, limit: nat) -> UpdateSpec {
    UpdateSpec {
        doc_path: doc.relative_path,
        file_hash: file_hash_of(doc.content),
        chunks: spec_rows(doc.relative_path, spec_chunk_document(doc.relative_path, doc.content, limit)),
    }
}

/// The number of unchanged documents and the updates of the others, in
/// order.
pub open spec fn plan_docs(
    docs: Seq<DocumentText>,
    ms: Seq<(Seq<char>, (Seq<char>, Seq<char>))>,
    fp: Seq<char>,
    limit: nat,
) -> (nat, Seq<UpdateSpec>)
    decreases docs.len(),
{
    if docs.len() == 0 {
        (0, Seq::empty())
    } else {
        let (skipped, updates) = plan_docs(docs.drop_last(), ms, fp, limit);
        if unchanged(ms, docs.last(), fp) {
            (skipped + 1, updates)
        } else {
            (skipped, updates.push(spec_update(docs.last(), limit)))
        }
    }
}

/// Whether some document has relative path `path`.
pub open spec fn seen(docs: Seq<DocumentText>, path: Seq<char>) -> bool {
    exists|i: int| 0 <= i < docs.len() && (#[trigger] docs[i]).relative_path == path
}

/// The indexed paths that no document has any more, in index order.
pub open spec fn stale_paths(keys: Seq<Seq<char>>, docs: Seq<DocumentText>) -> Seq<Seq<char>>
    decreases keys.len(),
{
    if keys.len() == 0 {
        Seq::empty()
    } else {
        let r = stale_paths(keys.drop_last(), docs);
        if seen(docs, keys.last()) {
            r
        } else {
            r.push(keys.last())
        }
    }
}

pub open spec fn manifest_keys(ms: Seq<(Seq<char>, (Seq<char>, Seq<char>))>) -> Seq<Seq<char>> {
    Seq::new(ms.len(), |i: int| ms[i].0)
}

/// The plan of a reindex run over `docs` against the manifests `ms`.
pub open spec fn spec_plan(
    docs: Seq<DocumentText>,
    ms: Seq<(Seq<char>, (Seq<char>, Seq<char>))>,
    fp: Seq<char>,
    limit: nat,
) -> PlanSpec {
    let (skipped, updates) = plan_docs(docs, ms, fp, limit);
    PlanSpec {
        scanned: docs.len(),
        skipped: skipped,
        updates: updates,
        deleted: stale_paths(manifest_keys(ms), docs),
    }
}

/// Every document that has to be chunked can be: chunking text takes a
/// positive limit.
pub open spec fn chunkable(
    docs: Seq<DocumentText>,
    ms: Seq<(Seq<char>, (Seq<char>, Seq<char>))>,
    fp: Seq<char>,
    limit: nat,
) -> bool {
    forall|i: int|
        0 <= i < docs.len() && !unchanged(ms, #[trigger] docs[i], fp) ==> (limit > 0
            || !has_text_paragraph(docs[i].content))
}

pub proof fn lemma_plan_counts(
    docs: Seq<DocumentText>,
    ms: Seq<(Seq<char>, (Seq<char>, Seq<char>))>,
    fp: Seq<char>,
    limit: nat,
)
    ensures
        plan_docs(docs, ms, fp, limit).0 + plan_docs(docs, ms, fp, limit).1.len() == docs.len(),
    decreases docs.len(),
{
    if docs.len() > 0 {
        lemma_plan_counts(docs.drop_last(), ms, fp, limit);
    }
}

fn chunk_row(path: &String, ordinal: usize, chunk: &ChunkDraft) -> (r: ChunkRow)
    ensures
        r@ == spec_chunk_row(path@, ordinal as nat, chunk@),
{
    let chunk_hash = sha256_hex(chunk.text.as_str().as_bytes());
    let mut src: Vec<char> = chars_of(path.as_str());
    src.push(':');
    push_decimal(&mut src, ordinal as u64);
    src.push(':');
    let heading = chars_of(chunk.heading_path.as_str());
    push_all(&mut src, &heading);
    src.push(':');
    let h = chars_of(chunk_hash.as_str());
    push_all(&mut src, &h);
    assert(src@ =~= chunk_id_source(path@, ordinal as nat, chunk.heading_path@, chunk_hash@));
    let id_source = string_of(&src);
    let chunk_id = sha256_hex(id_source.as_str().as_bytes());
    ChunkRow {
        chunk_id,
        doc_path: path.clone(),
        ordinal,
        heading_path: chunk.heading_path.clone(),
        chunk_hash,
        text: chunk.text.clone(),
    }
}

fn manifest_matches(
    known: &Vec<(String, DocumentManifest)>,
    path: &String,
    file_hash: &String,
    fingerprint: &String,
) -> (r: bool)
    ensures
        r == (lookup(manifests_view(known@), path@) == Some((file_hash@, fingerprint@))),
{
    let ghost mv = manifests_view(known@);
    let mut i = known.len();
    assert(mv.take(i as int) =~= mv);
    while i > 0
        invariant
            i <= known@.len(),
            mv == manifests_view(known@),
            lookup(mv, path@) == lookup(mv.take(i as int), path@),
        decreases i,
    {
        assert(mv.take(i as int).drop_last() =~= mv.take(i - 1));
        assert(mv.take(i as int).last() == mv[i - 1]);
        if known[i - 1].0 == *path {
            return known[i - 1].1.file_hash == *file_hash && known[i - 1].1.embedding_fingerprint
                == *fingerprint;
        }
        i = i - 1;
    }
    false
}

fn is_seen(documents: &Vec<MarkdownDocument>, path: &String) -> (r: bool)
    ensures
        r == seen(docs_view(documents@), path@),
{
    let ghost dv = docs_view(documents@);
    for i in 0..documents.len()
        invariant
            dv == docs_view(documents@),
            forall|k: int| 0 <= k < i ==> (#[trigger] dv[k]).relative_path != path@,
    {
        if documents[i].relative_path == *path {
            assert(dv[i as int].relative_path == path@);
            return true;
        }
    }
    false
}

fn chunk_rows(path: &String, drafts: &Vec<ChunkDraft>) -> (rows: Vec<ChunkRow>)
    ensures
        Seq::new(rows@.len(), |k: int| rows@[k]@) == spec_rows(path@, drafts_view(drafts@)),
{
    let ghost cs = drafts_view(drafts@);
    let mut rows: Vec<ChunkRow> = Vec::new();
    for j in 0..drafts.len()
        invariant
            cs == drafts_view(drafts@),
            rows@.len() == j,
            forall|k: int| 0 <= k < j ==> (#[trigger] rows@[k])@ == spec_chunk_row(path@, k as nat, cs[k]),
    {
        let row = chunk_row(path, j, &drafts[j]);
        rows.push(row);
    }
    assert(Seq::new(rows@.len(), |k: int| rows@[k]@) =~= spec_rows(path@, cs));
    rows
}

/// Runs the indexing of a knowledge base.
pub struct Indexer<'a> {
    pub config: &'a AppConfig,
}

impl<'a> Indexer<'a> {
    pub fn new(config: &'a AppConfig) -> (r: Self)
        ensures
            r.config == config,
    {
        Indexer { config }
    }

    /// Whether every document that the plan would chunk can be chunked with
    /// the configured limit.
    pub fn inputs_chunkable(
        &self,
        documents: &Vec<MarkdownDocument>,
        known_manifests: &Vec<(String, DocumentManifest)>,
        embedding_fingerprint: &String,
    ) -> (r: bool)
        ensures
            r == chunkable(
                docs_view(documents@),
                manifests_view(known_manifests@),
                embedding_fingerprint@,
                self.config.chunk_char_limit as nat,
            ),
    {
        if self.config.chunk_char_limit > 0 {
            return true;
        }
        let ghost dv = docs_view(documents@);
        let ghost mv = manifests_view(known_manifests@);
        for i in 0..documents.len()
            invariant
                dv == docs_view(documents@),
                mv == manifests_view(known_manifests@),
                self.config.chunk_char_limit == 0,
                forall|k: int|
                    0 <= k < i && !unchanged(mv, #[trigger] dv[k], embedding_fingerprint@)
                        ==> !has_text_paragraph(dv[k].content),
        {
            let doc = &documents[i];
            let file_hash = sha256_hex(doc.content.as_str().as_bytes());
            if !manifest_matches(known_manifests, &doc.relative_path, &file_hash, embedding_fingerprint)
                && has_text_paragraphs(doc.content.as_str()) {
                assert(!unchanged(mv, dv[i as int], embedding_fingerprint@));
                return false;
            }
        }
        true
    }

    /// Plans a reindex as `reindex_all` does when every document to chunk
    /// can be chunked with the configured limit; `None` otherwise.
    pub fn checked_reindex_all(
        &self,
        documents: &Vec<MarkdownDocument>,
        known_manifests: &Vec<(String, DocumentManifest)>,
        embedding_fingerprint: &String,
    ) -> (r: Option<IndexPlan>)
        ensures
            r is None <==> !chunkable(
                docs_view(documents@),
                manifests_view(known_manifests@),
                embedding_fingerprint@,
                self.config.chunk_char_limit as nat,
            ),
            r matches Some(p) ==> p@ == spec_plan(
                docs_view(documents@),
                manifests_view(known_manifests@),
                embedding_fingerprint@,
                self.config.chunk_char_limit as nat,
            ),
    {
        if self.inputs_chunkable(documents, known_manifests, embedding_fingerprint) {
            Some(self.reindex_all(documents, known_manifests, embedding_fingerprint))
        } else {
            None
        }
    }

    /// Plans a reindex of `documents` against what the index holds: a
    /// document whose hash and embedding fingerprint match its manifest is
    /// skipped, every other one is chunked and rewritten, and indexed paths
    /// that no document has any more are dropped.
    pub fn reindex_all(
        &self,
        documents: &Vec<MarkdownDocument>,
        known_manifests: &Vec<(String, DocumentManifest)>,
        embedding_fingerprint: &String,
    ) -> (r: IndexPlan)
        requires
            chunkable(
                docs_view(documents@),
                manifests_view(known_manifests@),
                embedding_fingerprint@,
                self.config.chunk_char_limit as nat,
            ),
        ensures
            r@ == spec_plan(
                docs_view(documents@),
                manifests_view(known_manifests@),
                embedding_fingerprint@,
                self.config.chunk_char_limit as nat,
            ),
            r.scanned_docs == r.skipped_docs + r.updates@.len(),
    {
        let limit = self.config.chunk_char_limit;
        let ghost dv = docs_view(documents@);
        let ghost mv = manifests_view(known_manifests@);
        let ghost fp = embedding_fingerprint@;
        let mut skipped: usize = 0;
        let mut updates: Vec<DocumentUpdate> = Vec::new();
        assert(dv.take(0) =~= Seq::<DocumentText>::empty());
        for i in 0..documents.len()
            invariant
                dv == docs_view(documents@),
                mv == manifests_view(known_manifests@),
                fp == embedding_fingerprint@,
                limit == self.config.chunk_char_limit,
                chunkable(dv, mv, fp, limit as nat),
                skipped <= i,
                plan_docs(dv.take(i as int), mv, fp, limit as nat) == (
                    skipped as nat,
                    Seq::new(updates@.len(), |k: int| updates@[k]@),
                ),
        {
            assert(dv.take(i + 1).drop_last() =~= dv.take(i as int));
            assert(dv.take(i + 1).last() == documents@[i as int]@);
            let doc = &documents[i];
            let file_hash = sha256_hex(doc.content.as_str().as_bytes());
            if manifest_matches(known_manifests, &doc.relative_path, &file_hash, embedding_fingerprint) {
                skipped = skipped + 1;
            } else {
                assert(!unchanged(mv, dv[i as int], fp));
                let drafts = chunk_document(doc, limit);
                let rows = chunk_rows(&doc.relative_path, &drafts);
                let update = DocumentUpdate {
                    doc_path: doc.relative_path.clone(),
                    file_hash,
                    chunks: rows,
                };
                let ghost prev = updates@;
                updates.push(update);
                assert(Seq::new(updates@.len(), |k: int| updates@[k]@) =~= Seq::new(
                    prev.len(),
                    |k: int| prev[k]@,
                ).push(update@));
            }
        }
        assert(dv.take(documents.len() as int) =~= dv);
        let ghost keys = manifest_keys(mv);
        let mut deleted_paths: Vec<String> = Vec::new();
        assert(keys.take(0) =~= Seq::<Seq<char>>::empty());
        for k in 0..known_manifests.len()
            invariant
                dv == docs_view(documents@),
                mv == manifests_view(known_manifests@),
                keys == manifest_keys(mv),
                stale_paths(keys.take(k as int), dv) == Seq::new(
                    deleted_paths@.len(),
                    |n: int| deleted_paths@[n]@,
                ),
        {
            assert(keys.take(k + 1).drop_last() =~= keys.take(k as int));
            assert(keys.take(k + 1).last() == known_manifests@[k as int].0@);
            let path = &known_manifests[k].0;
            if !is_seen(documents, path) {
                let ghost prev = deleted_paths@;
                deleted_paths.push(path.clone());
                assert(Seq::new(deleted_paths@.len(), |n: int| deleted_paths@[n]@) =~= Seq::new(
                    prev.len(),
                    |n: int| prev[n]@,
                ).push(path@));
            }
        }
        assert(keys.take(known_manifests.len() as int) =~= keys);
        proof {
            lemma_plan_counts(dv, mv, fp, limit as nat);
        }
        let plan = IndexPlan {
            scanned_docs: documents.len(),
            skipped_docs: skipped,
            updates,
            deleted_paths,
        };
        assert(plan@.updates =~= plan_docs(dv, mv, fp, limit as nat).1);
        assert(plan@.deleted =~= stale_paths(manifest_keys(mv), dv));
        plan
    }
}

impl IndexPlan {
    /// The statistics of a run that carried out this plan, given how many
    /// documents the index dropped and how many chunks it holds afterwards.
    pub fn stats(&self, deleted_docs: usize, total_chunks: usize) -> (r: IndexStats)
        ensures
            r.scanned_docs == self.scanned_docs,
            r.updated_docs == self.updates@.len(),
            r.skipped_docs == self.skipped_docs,
            r.deleted_docs == deleted_docs,
            r.total_chunks == total_chunks,
    {
        IndexStats {
            scanned_docs: self.scanned_docs,
            updated_docs: self.updates.len(),
            skipped_docs: self.skipped_docs,
            deleted_docs,
            total_chunks,
        }
    }
}


/// The manifest table without the entries whose path is in `dels`.
pub open spec fn drop_paths(
    ms: Seq<(Seq<char>, (Seq<char>, Seq<char>))>,
    dels: Seq<Seq<char>>,
) -> Seq<(Seq<char>, (Seq<char>, Seq<char>))>
    decreases ms.len(),
{
    if ms.len() == 0 {
        Seq::empty()
    } else {
        let r = drop_paths(ms.drop_last(), dels);
        if dels.contains(ms.last().0) {
            r
        } else {
            r.push(ms.last())
        }
    }
}

/// The manifest entries that writing the updates of a plan adds.
pub open spec fn written_entries(updates: Seq<UpdateSpec>, fp: Seq<char>) -> Seq<
    (Seq<char>, (Seq<char>, Seq<char>)),
> {
    Seq::new(updates.len(), |k: int| (updates[k].doc_path, (updates[k].file_hash, fp)))
}

/// The manifest table after a plan is carried out: the dropped paths leave,
/// then each rewritten document is stored with its new hash under `fp`.
pub open spec fn write_plan(
    ms: Seq<(Seq<char>, (Seq<char>, Seq<char>))>,
    plan: PlanSpec,
    fp: Seq<char>,
) -> Seq<(Seq<char>, (Seq<char>, Seq<char>))> {
    drop_paths(ms, plan.deleted) + written_entries(plan.updates, fp)
}

/// No two documents share a relative path.
pub open spec fn distinct_paths(docs: Seq<DocumentText>) -> bool {
    forall|i: int, j: int|
        0 <= i < docs.len() && 0 <= j < docs.len() && i != j ==> (#[trigger] docs[i]).relative_path
            != (#[trigger] docs[j]).relative_path
}

proof fn lemma_lookup_append(
    a: Seq<(Seq<char>, (Seq<char>, Seq<char>))>,
    b: Seq<(Seq<char>, (Seq<char>, Seq<char>))>,
    p: Seq<char>,
)
    ensures
        lookup(a + b, p) == (if lookup(b, p) is Some {
            lookup(b, p)
        } else {
            lookup(a, p)
        }),
    decreases b.len(),
{
    if b.len() == 0 {
        assert(a + b =~= a);
    } else {
        assert((a + b).drop_last() =~= a + b.drop_last());
        assert((a + b).last() == b.last());
        lemma_lookup_append(a, b.drop_last(), p);
    }
}

proof fn lemma_lookup_none(ms: Seq<(Seq<char>, (Seq<char>, Seq<char>))>, p: Seq<char>)
    requires
        forall|k: int| 0 <= k < ms.len() ==> (#[trigger] ms[k]).0 != p,
    ensures
        lookup(ms, p) is None,
    decreases ms.len(),
{
    if ms.len() > 0 {
        assert(ms.last() == ms[ms.len() - 1]);
        lemma_lookup_none(ms.drop_last(), p);
    }
}

proof fn lemma_lookup_some(
    ms: Seq<(Seq<char>, (Seq<char>, Seq<char>))>,
    p: Seq<char>,
    v: (Seq<char>, Seq<char>),
    w: int,
)
    requires
        0 <= w < ms.len(),
        ms[w].0 == p,
        forall|k: int| 0 <= k < ms.len() && (#[trigger] ms[k]).0 == p ==> ms[k].1 == v,
    ensures
        lookup(ms, p) == Some(v),
    decreases ms.len(),
{
    assert(ms.last() == ms[ms.len() - 1]);
    if ms.last().0 != p {
        assert(ms.drop_last()[w] == ms[w]);
        lemma_lookup_some(ms.drop_last(), p, v, w);
    }
}

proof fn lemma_drop_paths_lookup(
    ms: Seq<(Seq<char>, (Seq<char>, Seq<char>))>,
    dels: Seq<Seq<char>>,
    p: Seq<char>,
)
    requires
        !dels.contains(p),
    ensures
        lookup(drop_paths(ms, dels), p) == lookup(ms, p),
    decreases ms.len(),
{
    if ms.len() > 0 {
        lemma_drop_paths_lookup(ms.drop_last(), dels, p);
        let r = drop_paths(ms.drop_last(), dels);
        assert(r.push(ms.last()).drop_last() =~= r);
        if dels.contains(ms.last().0) {
            assert(ms.last().0 != p);
        }
    }
}

proof fn lemma_drop_paths_keys(
    ms: Seq<(Seq<char>, (Seq<char>, Seq<char>))>,
    dels: Seq<Seq<char>>,
)
    ensures
        forall|k: int|
            0 <= k < drop_paths(ms, dels).len() ==> !dels.contains(
                (#[trigger] drop_paths(ms, dels)[k]).0,
            ) && manifest_keys(ms).contains(drop_paths(ms, dels)[k].0),
    decreases ms.len(),
{
    if ms.len() > 0 {
        let r = drop_paths(ms.drop_last(), dels);
        lemma_drop_paths_keys(ms.drop_last(), dels);
        assert forall|k: int|
            0 <= k < drop_paths(ms, dels).len() implies !dels.contains(
            (#[trigger] drop_paths(ms, dels)[k]).0,
        ) && manifest_keys(ms).contains(drop_paths(ms, dels)[k].0) by {
            if k < r.len() {
                assert(drop_paths(ms, dels)[k] == r[k]);
                let j = choose|j: int|
                    0 <= j < manifest_keys(ms.drop_last()).len() && manifest_keys(ms.drop_last())[j]
                        == r[k].0;
                assert(manifest_keys(ms)[j] == manifest_keys(ms.drop_last())[j]);
            } else {
                assert(manifest_keys(ms)[ms.len() - 1] == ms.last().0);
            }
        }
    }
}

proof fn lemma_stale_not_seen(keys: Seq<Seq<char>>, docs: Seq<DocumentText>, p: Seq<char>)
    requires
        seen(docs, p),
    ensures
        !stale_paths(keys, docs).contains(p),
    decreases keys.len(),
{
    if keys.len() > 0 {
        lemma_stale_not_seen(keys.drop_last(), docs, p);
        let r = stale_paths(keys.drop_last(), docs);
        if !seen(docs, keys.last()) {
            assert forall|k: int| 0 <= k < r.push(keys.last()).len() implies r.push(keys.last())[k]
                != p by {
                if k < r.len() {
                    assert(r.push(keys.last())[k] == r[k]);
                }
            }
        }
    }
}

proof fn lemma_stale_complete(keys: Seq<Seq<char>>, docs: Seq<DocumentText>, p: Seq<char>)
    requires
        keys.contains(p),
        !seen(docs, p),
    ensures
        stale_paths(keys, docs).contains(p),
    decreases keys.len(),
{
    let r = stale_paths(keys.drop_last(), docs);
    if keys.last() == p {
        assert(r.push(p)[r.len() as int] == p);
    } else {
        let j = choose|j: int| 0 <= j < keys.len() && keys[j] == p;
        assert(keys.drop_last()[j] == p);
        lemma_stale_complete(keys.drop_last(), docs, p);
        let k = choose|k: int| 0 <= k < r.len() && r[k] == p;
        if !seen(docs, keys.last()) {
            assert(r.push(keys.last())[k] == p);
        }
    }
}

proof fn lemma_stale_empty(keys: Seq<Seq<char>>, docs: Seq<DocumentText>)
    requires
        forall|k: int| 0 <= k < keys.len() ==> seen(docs, #[trigger] keys[k]),
    ensures
        stale_paths(keys, docs).len() == 0,
    decreases keys.len(),
{
    if keys.len() > 0 {
        assert(keys.last() == keys[keys.len() - 1]);
        lemma_stale_empty(keys.drop_last(), docs);
    }
}

proof fn lemma_updates_origin(
    docs: Seq<DocumentText>,
    ms: Seq<(Seq<char>, (Seq<char>, Seq<char>))>,
    fp: Seq<char>,
    limit: nat,
)
    ensures
        forall|k: int|
            0 <= k < plan_docs(docs, ms, fp, limit).1.len() ==> exists|i: int|
                0 <= i < docs.len() && !unchanged(ms, docs[i], fp) && #[trigger] plan_docs(
                    docs,
                    ms,
                    fp,
                    limit,
                ).1[k] == spec_update(docs[i], limit),
        forall|i: int|
            0 <= i < docs.len() && !unchanged(ms, #[trigger] docs[i], fp) ==> exists|k: int|
                0 <= k < plan_docs(docs, ms, fp, limit).1.len() && plan_docs(docs, ms, fp, limit).1[k]
                    == spec_update(docs[i], limit),
    decreases docs.len(),
{
    if docs.len() > 0 {
        let prev = docs.drop_last();
        lemma_updates_origin(prev, ms, fp, limit);
        let ups0 = plan_docs(prev, ms, fp, limit).1;
        let ups = plan_docs(docs, ms, fp, limit).1;
        let n = docs.len() - 1;
        assert forall|k: int| 0 <= k < ups.len() implies exists|i: int|
            0 <= i < docs.len() && !unchanged(ms, docs[i], fp) && #[trigger] ups[k] == spec_update(
                docs[i],
                limit,
            ) by {
            if k < ups0.len() {
                assert(ups[k] == ups0[k]);
                let i = choose|i: int|
                    0 <= i < prev.len() && !unchanged(ms, prev[i], fp) && ups0[k] == spec_update(
                        prev[i],
                        limit,
                    );
                assert(docs[i] == prev[i]);
            } else {
                assert(docs[n] == docs.last());
            }
        }
        assert forall|i: int| 0 <= i < docs.len() && !unchanged(ms, #[trigger] docs[i], fp) implies exists|
            k: int,
        | 0 <= k < ups.len() && ups[k] == spec_update(docs[i], limit) by {
            if i < n {
                assert(prev[i] == docs[i]);
                let k = choose|k: int| 0 <= k < ups0.len() && ups0[k] == spec_update(prev[i], limit);
                assert(ups[k] == ups0[k]);
            } else {
                assert(docs[i] == docs.last());
                assert(ups[ups0.len() as int] == spec_update(docs.last(), limit));
            }
        }
    }
}

proof fn lemma_all_unchanged(
    docs: Seq<DocumentText>,
    ms: Seq<(Seq<char>, (Seq<char>, Seq<char>))>,
    fp: Seq<char>,
    limit: nat,
)
    requires
        forall|i: int| 0 <= i < docs.len() ==> unchanged(ms, #[trigger] docs[i], fp),
    ensures
        plan_docs(docs, ms, fp, limit) == (docs.len(), Seq::<UpdateSpec>::empty()),
    decreases docs.len(),
{
    if docs.len() > 0 {
        assert(docs.last() == docs[docs.len() - 1]);
        assert forall|i: int| 0 <= i < docs.drop_last().len() implies unchanged(
            ms,
            #[trigger] docs.drop_last()[i],
            fp,
        ) by {
            assert(docs.drop_last()[i] == docs[i]);
        }
        lemma_all_unchanged(docs.drop_last(), ms, fp, limit);
    }
}

/// Reindexing is stable: once a plan is carried out, a second run over the
/// same documents (with distinct paths) and the same fingerprint skips every
/// document, rewrites none and drops nothing.
pub proof fn law_reindex_is_stable(
    docs: Seq<DocumentText>,
    ms: Seq<(Seq<char>, (Seq<char>, Seq<char>))>,
    fp: Seq<char>,
    limit: nat,
)
    requires
        distinct_paths(docs),
    ensures
        ({
            let first = spec_plan(docs, ms, fp, limit);
            let second = spec_plan(docs, write_plan(ms, first, fp), fp, limit);
            &&& second.skipped == docs.len()
            &&& second.updates.len() == 0
            &&& second.deleted.len() == 0
        }),
{
    let first = spec_plan(docs, ms, fp, limit);
    let a = drop_paths(ms, first.deleted);
    let b = written_entries(first.updates, fp);
    let ms2 = write_plan(ms, first, fp);
    lemma_updates_origin(docs, ms, fp, limit);
    lemma_drop_paths_keys(ms, first.deleted);
    assert forall|i: int| 0 <= i < docs.len() implies unchanged(ms2, #[trigger] docs[i], fp) by {
        let p = docs[i].relative_path;
        lemma_lookup_append(a, b, p);
        if unchanged(ms, docs[i], fp) {
            assert forall|k: int| 0 <= k < b.len() implies (#[trigger] b[k]).0 != p by {
                let j = choose|j: int|
                    0 <= j < docs.len() && !unchanged(ms, docs[j], fp) && first.updates[k]
                        == spec_update(docs[j], limit);
                if b[k].0 == p {
                    assert(docs[j].relative_path == docs[i].relative_path);
                }
            }
            lemma_lookup_none(b, p);
            assert(seen(docs, p));
            lemma_stale_not_seen(manifest_keys(ms), docs, p);
            lemma_drop_paths_lookup(ms, first.deleted, p);
        } else {
            let w = choose|k: int|
                0 <= k < first.updates.len() && first.updates[k] == spec_update(docs[i], limit);
            assert(b[w].0 == p);
            assert forall|k: int| 0 <= k < b.len() && (#[trigger] b[k]).0 == p implies b[k].1 == (
                file_hash_of(docs[i].content),
                fp,
            ) by {
                let j = choose|j: int|
                    0 <= j < docs.len() && !unchanged(ms, docs[j], fp) && first.updates[k]
                        == spec_update(docs[j], limit);
                assert(docs[j].relative_path == p);
            }
            lemma_lookup_some(b, p, (file_hash_of(docs[i].content), fp), w);
        }
    }
    lemma_all_unchanged(docs, ms2, fp, limit);
    let keys2 = manifest_keys(ms2);
    assert forall|k: int| 0 <= k < keys2.len() implies seen(docs, #[trigger] keys2[k]) by {
        if k < a.len() {
            assert(ms2[k] == a[k]);
            if !seen(docs, a[k].0) {
                lemma_stale_complete(manifest_keys(ms), docs, a[k].0);
            }
        } else {
            assert(ms2[k] == b[k - a.len()]);
            let j = choose|j: int|
                0 <= j < docs.len() && !unchanged(ms, docs[j], fp) && first.updates[k - a.len()]
                    == spec_update(docs[j], limit);
            assert(docs[j].relative_path == keys2[k]);
        }
    }
    lemma_stale_empty(keys2, docs);
}


/// `u` writes document `d` as chunked under `limit`: the document's path and
/// content hash, and for each `k` a row with the `k`-th chunk of
/// `chunk_document`, ordinal `k`, the hash of its text, and an id that
/// hashes `path:k:heading:hash`.
pub open spec fn writes_chunks_of(u: UpdateSpec, d: DocumentText, limit: nat) -> bool {
    let cs = spec_chunk_document(d.relative_path, d.content, limit);
    &&& u.doc_path == d.relative_path
    &&& u.file_hash == spec_sha256_hex(encode_utf8(d.content))
    &&& u.chunks.len() == cs.len()
    &&& forall|k: int|
        #![trigger u.chunks[k]]
        0 <= k < u.chunks.len() ==> {
            let row = u.chunks[k];
            &&& row.ordinal == k
            &&& row.doc_path == d.relative_path
            &&& row.text == cs[k].text
            &&& row.heading_path == cs[k].heading_path
            &&& row.chunk_hash == spec_sha256_hex(encode_utf8(cs[k].text))
            &&& row.chunk_id == spec_sha256_hex(
                encode_utf8(
                    d.relative_path + seq![':'] + decimal(k as nat) + seq![':'] + cs[k].heading_path
                        + seq![':'] + row.chunk_hash,
                ),
            )
        }
}

proof fn lemma_update_writes_chunks(d: DocumentText, limit: nat)
    ensures
        writes_chunks_of(spec_update(d, limit), d, limit),
{
}

/// Every update of a plan rewrites one changed document with exactly the
/// chunks that `chunk_document` gives it under the configured limit, rows
/// numbered from zero in chunk order.
pub proof fn law_plan_rows_follow_chunks(
    docs: Seq<DocumentText>,
    ms: Seq<(Seq<char>, (Seq<char>, Seq<char>))>,
    fp: Seq<char>,
    limit: nat,
)
    ensures
        forall|i: int|
            #![trigger spec_plan(docs, ms, fp, limit).updates[i]]
            0 <= i < spec_plan(docs, ms, fp, limit).updates.len() ==> exists|j: int|
                #![trigger docs[j]]
                0 <= j < docs.len() && !unchanged(ms, docs[j], fp) && writes_chunks_of(
                    spec_plan(docs, ms, fp, limit).updates[i],
                    docs[j],
                    limit,
                ),
{
    lemma_updates_origin(docs, ms, fp, limit);
    let ups = spec_plan(docs, ms, fp, limit).updates;
    assert(ups == plan_docs(docs, ms, fp, limit).1);
    assert forall|i: int|
        #![trigger spec_plan(docs, ms, fp, limit).updates[i]]
        0 <= i < ups.len() implies exists|j: int|
        #![trigger docs[j]]
        0 <= j < docs.len() && !unchanged(ms, docs[j], fp) && writes_chunks_of(
            spec_plan(docs, ms, fp, limit).updates[i],
            docs[j],
            limit,
        ) by {
        assert(ups[i] == plan_docs(docs, ms, fp, limit).1[i]);
        let j = choose|j: int|
            0 <= j < docs.len() && !unchanged(ms, docs[j], fp) && plan_docs(docs, ms, fp, limit).1[i]
                == spec_update(docs[j], limit);
        lemma_update_writes_chunks(docs[j], limit);
    }
}


/// `idx` lists, in increasing order, exactly the positions of the documents
/// that differ from the index, and update `i` writes document `idx[i]`.
pub open spec fn updates_match(
    docs: Seq<DocumentText>,
    ms: Seq<(Seq<char>, (Seq<char>, Seq<char>))>,
    fp: Seq<char>,
    limit: nat,
    updates: Seq<UpdateSpec>,
    idx: Seq<int>,
) -> bool {
    &&& idx.len() == updates.len()
    &&& forall|i: int|
        #![trigger idx[i]]
        0 <= i < idx.len() ==> 0 <= idx[i] < docs.len() && !unchanged(ms, docs[idx[i]], fp)
            && writes_chunks_of(updates[i], docs[idx[i]], limit)
    &&& forall|a: int, b: int| 0 <= a < b < idx.len() ==> #[trigger] idx[a] < #[trigger] idx[b]
    &&& forall|j: int|
        0 <= j < docs.len() && !unchanged(ms, #[trigger] docs[j], fp) ==> exists|i: int|
            0 <= i < idx.len() && #[trigger] idx[i] == j
}

proof fn lemma_updates_match(
    docs: Seq<DocumentText>,
    ms: Seq<(Seq<char>, (Seq<char>, Seq<char>))>,
    fp: Seq<char>,
    limit: nat,
) -> (idx: Seq<int>)
    ensures
        updates_match(docs, ms, fp, limit, plan_docs(docs, ms, fp, limit).1, idx),
    decreases docs.len(),
{
    if docs.len() == 0 {
        Seq::empty()
    } else {
        let prev = docs.drop_last();
        let idx0 = lemma_updates_match(prev, ms, fp, limit);
        let ups0 = plan_docs(prev, ms, fp, limit).1;
        let n = prev.len() as int;
        assert forall|j: int| 0 <= j < n implies #[trigger] docs[j] == prev[j] by {}
        assert(docs[n] == docs.last());
        if unchanged(ms, docs.last(), fp) {
            assert forall|j: int|
                0 <= j < docs.len() && !unchanged(ms, #[trigger] docs[j], fp) implies exists|i: int|
                0 <= i < idx0.len() && #[trigger] idx0[i] == j by {
                assert(j < n);
                assert(prev[j] == docs[j]);
            }
            idx0
        } else {
            let idx = idx0.push(n);
            let ups = ups0.push(spec_update(docs.last(), limit));
            lemma_update_writes_chunks(docs.last(), limit);
            assert forall|i: int|
                #![trigger idx[i]]
                0 <= i < idx.len() implies 0 <= idx[i] < docs.len() && !unchanged(ms, docs[idx[i]], fp)
                && writes_chunks_of(ups[i], docs[idx[i]], limit) by {
                if i < idx0.len() {
                    assert(idx[i] == idx0[i]);
                    assert(ups[i] == ups0[i]);
                }
            }
            assert forall|a: int, b: int| 0 <= a < b < idx.len() implies #[trigger] idx[a]
                < #[trigger] idx[b] by {
                assert(idx[a] == idx0[a]);
                if b < idx0.len() {
                    assert(idx[b] == idx0[b]);
                }
            }
            assert forall|j: int|
                0 <= j < docs.len() && !unchanged(ms, #[trigger] docs[j], fp) implies exists|i: int|
                0 <= i < idx.len() && #[trigger] idx[i] == j by {
                if j < n {
                    assert(prev[j] == docs[j]);
                    let i = choose|i: int| 0 <= i < idx0.len() && #[trigger] idx0[i] == j;
                    assert(idx[i] == idx0[i]);
                } else {
                    assert(idx[idx0.len() as int] == n);
                }
            }
            idx
        }
    }
}

/// A plan sorts the documents: the updates are exactly the documents that
/// differ from the index (by hash or fingerprint), one each, in document
/// order, each written as chunked under the configured limit; every other
/// document is skipped; the dropped paths are exactly the indexed paths that
/// no document has.
pub proof fn law_plan_partitions(
    docs: Seq<DocumentText>,
    ms: Seq<(Seq<char>, (Seq<char>, Seq<char>))>,
    fp: Seq<char>,
    limit: nat,
) -> (idx: Seq<int>)
    ensures
        updates_match(docs, ms, fp, limit, spec_plan(docs, ms, fp, limit).updates, idx),
        spec_plan(docs, ms, fp, limit).skipped + idx.len() == docs.len(),
        spec_plan(docs, ms, fp, limit).scanned == docs.len(),
        forall|k: int|
            0 <= k < spec_plan(docs, ms, fp, limit).deleted.len() ==> manifest_keys(ms).contains(
                #[trigger] spec_plan(docs, ms, fp, limit).deleted[k],
            ) && !seen(docs, spec_plan(docs, ms, fp, limit).deleted[k]),
        forall|p: Seq<char>|
            manifest_keys(ms).contains(p) && !seen(docs, p) ==> #[trigger] spec_plan(
                docs,
                ms,
                fp,
                limit,
            ).deleted.contains(p),
{
    let idx = lemma_updates_match(docs, ms, fp, limit);
    lemma_plan_counts(docs, ms, fp, limit);
    let del = spec_plan(docs, ms, fp, limit).deleted;
    lemma_stale_sound(manifest_keys(ms), docs);
    assert forall|p: Seq<char>| manifest_keys(ms).contains(p) && !seen(docs, p) implies #[trigger] del.contains(p) by {
        lemma_stale_complete(manifest_keys(ms), docs, p);
    }
    idx
}

proof fn lemma_stale_sound(keys: Seq<Seq<char>>, docs: Seq<DocumentText>)
    ensures
        forall|k: int|
            0 <= k < stale_paths(keys, docs).len() ==> keys.contains(#[trigger] stale_paths(keys, docs)[k])
                && !seen(docs, stale_paths(keys, docs)[k]),
    decreases keys.len(),
{
    if keys.len() > 0 {
        let prev = keys.drop_last();
        lemma_stale_sound(prev, docs);
        let r = stale_paths(prev, docs);
        let full = stale_paths(keys, docs);
        assert forall|k: int| 0 <= k < full.len() implies keys.contains(#[trigger] full[k]) && !seen(
            docs,
            full[k],
        ) by {
            if k < r.len() {
                assert(full[k] == r[k]);
                let j = choose|j: int| 0 <= j < prev.len() && prev[j] == r[k];
                assert(keys[j] == prev[j]);
            } else {
                assert(keys[keys.len() - 1] == keys.last());
            }
        }
    }
}


/// The manifest of a path is that of its last entry in the table, and there
/// is none when no entry has the path.
pub proof fn law_lookup_last_entry(ms: Seq<(Seq<char>, (Seq<char>, Seq<char>))>, p: Seq<char>)
    ensures
        (forall|k: int| 0 <= k < ms.len() ==> (#[trigger] ms[k]).0 != p) ==> lookup(ms, p) is None,
        forall|w: int|
            0 <= w < ms.len() && (#[trigger] ms[w]).0 == p && (forall|k: int|
                w < k < ms.len() ==> (#[trigger] ms[k]).0 != p) ==> lookup(ms, p) == Some(ms[w].1),
    decreases ms.len(),
{
    if forall|k: int| 0 <= k < ms.len() ==> (#[trigger] ms[k]).0 != p {
        lemma_lookup_none(ms, p);
    }
    if ms.len() > 0 {
        law_lookup_last_entry(ms.drop_last(), p);
        assert(ms.last() == ms[ms.len() - 1]);
        assert forall|w: int|
            0 <= w < ms.len() && (#[trigger] ms[w]).0 == p && (forall|k: int|
                w < k < ms.len() ==> (#[trigger] ms[k]).0 != p) implies lookup(ms, p) == Some(
            ms[w].1,
        ) by {
            if w < ms.len() - 1 {
                assert(ms.drop_last()[w] == ms[w]);
                assert forall|k: int| w < k < ms.drop_last().len() implies (
                #[trigger] ms.drop_last()[k]).0 != p by {
                    assert(ms.drop_last()[k] == ms[k]);
                }
            }
        }
    }
}

} // verus!
