//! The knowledge-base store: an in-memory dataset of knowledge bases and
//! documents with the operations the engine offers — create, list, get
//! and delete for knowledge bases; import, list and delete for documents.
//! Deleting a knowledge base cascades to its documents, and every
//! mutation of a document set recomputes the owning knowledge base's
//! `document_count` by a full scan rather than trusting an increment.
//!
//! The store owns no file: loading and saving the dataset is the
//! caller's concern, so every operation here is a function of the data
//! it is given.

use vstd::prelude::*;
use crate::models::{
    Chunk, Document, DocumentMetadata, DocView, HeadingInfo, KbView, KnowledgeBase,
    clone_opt_string, opt_str_view,
};
use crate::heading::{heading_of, parse_heading_line};
use crate::text::{count_nonspace, nonspace_count, spec_lines, split_lines, str_eq};
use crate::chunker::{chunks_match, md_chunks, md_heads, parse_markdown_text};
use crate::title::{file_stem_str, title_for};
use crate::fresh::{fresh_id, now_millis};
use crate::seqs::{lemma_filter_all, lemma_filter_push};

verus! {

/// The view of the whole store: the knowledge-base records and the
/// document records, each in storage order.
pub struct StoreView {
    pub kbs: Seq<KbView>,
    pub docs: Seq<DocView>,
}

/// The knowledge-base store.
pub struct KnowledgeBaseService {
    pub knowledge_bases: Vec<KnowledgeBase>,
    pub documents: Vec<Document>,
}

impl View for KnowledgeBaseService {
    type V = StoreView;

    open spec fn view(&self) -> StoreView {
        StoreView { kbs: self.knowledge_bases.deep_view(), docs: self.documents.deep_view() }
    }
}

/// Holds of a knowledge base that does not carry the given id; what
/// survives deleting that id.
pub open spec fn kb_survives(id: Seq<char>) -> spec_fn(KbView) -> bool {
    |k: KbView| k.id != id
}

/// Holds of a document whose `kb_id` is not the given id; what survives
/// the cascade of deleting that knowledge base.
pub open spec fn doc_outside_kb(id: Seq<char>) -> spec_fn(DocView) -> bool {
    |d: DocView| d.kb_id != id
}

/// Holds of a document that does not carry the given id; what survives
/// deleting that document.
pub open spec fn doc_survives(doc_id: Seq<char>) -> spec_fn(DocView) -> bool {
    |d: DocView| d.id != doc_id
}

/// Holds of a document whose `kb_id` is the given id.
pub open spec fn doc_in_kb(id: Seq<char>) -> spec_fn(DocView) -> bool {
    |d: DocView| d.kb_id == id
}

/// Whether the knowledge-base records carry pairwise distinct ids.
pub open spec fn kb_ids_unique(kbs: Seq<KbView>) -> bool {
    forall|i: int, j: int| 0 <= i < j < kbs.len() ==> kbs[i].id != kbs[j].id
}

/// Whether the document records carry pairwise distinct ids.
pub open spec fn doc_ids_unique(docs: Seq<DocView>) -> bool {
    forall|i: int, j: int| 0 <= i < j < docs.len() ==> docs[i].id != docs[j].id
}

/// How many documents belong to the knowledge base with the given id.
pub open spec fn count_docs(docs: Seq<DocView>, id: Seq<char>) -> int {
    docs.filter(doc_in_kb(id)).len() as int
}

/// Whether every knowledge base's `document_count` equals the live count
/// of documents whose `kb_id` matches it.
pub open spec fn counts_consistent(kbs: Seq<KbView>, docs: Seq<DocView>) -> bool {
    forall|i: int|
        0 <= i < kbs.len() ==> (#[trigger] kbs[i]).document_count == count_docs(docs, kbs[i].id)
}

/// The index of the first knowledge base with the given id, or -1.
pub open spec fn find_kb_index(kbs: Seq<KbView>, id: Seq<char>) -> int
    decreases kbs.len(),
{
    if kbs.len() == 0 {
        -1
    } else if kbs[0].id == id {
        0
    } else {
        let r = find_kb_index(kbs.drop_first(), id);
        if r < 0 {
            -1
        } else {
            r + 1
        }
    }
}

/// The index of the first document with the given id, or -1.
pub open spec fn find_doc_index(docs: Seq<DocView>, id: Seq<char>) -> int
    decreases docs.len(),
{
    if docs.len() == 0 {
        -1
    } else if docs[0].id == id {
        0
    } else {
        let r = find_doc_index(docs.drop_first(), id);
        if r < 0 {
            -1
        } else {
            r + 1
        }
    }
}

pub proof fn lemma_find_kb_index_at(kbs: Seq<KbView>, id: Seq<char>, k: int)
    requires
        0 <= k <= kbs.len(),
        forall|j: int| 0 <= j < k ==> kbs[j].id != id,
        k < kbs.len() ==> kbs[k].id == id,
    ensures
        find_kb_index(kbs, id) == if k == kbs.len() {
            -1int
        } else {
            k
        },
    decreases kbs.len(),
{
    if kbs.len() > 0 && k > 0 {
        assert forall|j: int| 0 <= j < k - 1 implies kbs.drop_first()[j].id != id by {
            assert(kbs.drop_first()[j] == kbs[j + 1]);
        }
        lemma_find_kb_index_at(kbs.drop_first(), id, k - 1);
    }
}

pub proof fn lemma_find_doc_index_at(docs: Seq<DocView>, id: Seq<char>, k: int)
    requires
        0 <= k <= docs.len(),
        forall|j: int| 0 <= j < k ==> docs[j].id != id,
        k < docs.len() ==> docs[k].id == id,
    ensures
        find_doc_index(docs, id) == if k == docs.len() {
            -1int
        } else {
            k
        },
    decreases docs.len(),
{
    if docs.len() > 0 && k > 0 {
        assert forall|j: int| 0 <= j < k - 1 implies docs.drop_first()[j].id != id by {
            assert(docs.drop_first()[j] == docs[j + 1]);
        }
        lemma_find_doc_index_at(docs.drop_first(), id, k - 1);
    }
}

/// The characterization of `find_kb_index`: what the found index carries
/// and what its absence means.
pub proof fn lemma_find_kb_index(kbs: Seq<KbView>, id: Seq<char>)
    ensures
        -1 <= find_kb_index(kbs, id) < kbs.len(),
        find_kb_index(kbs, id) >= 0 ==> kbs[find_kb_index(kbs, id)].id == id,
        find_kb_index(kbs, id) >= 0 ==> forall|j: int|
            0 <= j < find_kb_index(kbs, id) ==> kbs[j].id != id,
        find_kb_index(kbs, id) == -1 ==> forall|j: int| 0 <= j < kbs.len() ==> kbs[j].id != id,
    decreases kbs.len(),
{
    if kbs.len() > 0 && kbs[0].id != id {
        lemma_find_kb_index(kbs.drop_first(), id);
        assert forall|j: int| 1 <= j < kbs.len() implies kbs[j] == kbs.drop_first()[j - 1] by {}
    }
}

/// The characterization of `find_doc_index`: what the found index
/// carries and what its absence means.
pub proof fn lemma_find_doc_index(docs: Seq<DocView>, id: Seq<char>)
    ensures
        -1 <= find_doc_index(docs, id) < docs.len(),
        find_doc_index(docs, id) >= 0 ==> docs[find_doc_index(docs, id)].id == id,
        find_doc_index(docs, id) >= 0 ==> forall|j: int|
            0 <= j < find_doc_index(docs, id) ==> docs[j].id != id,
        find_doc_index(docs, id) == -1 ==> forall|j: int| 0 <= j < docs.len() ==> docs[j].id != id,
    decreases docs.len(),
{
    if docs.len() > 0 && docs[0].id != id {
        lemma_find_doc_index(docs.drop_first(), id);
        assert forall|j: int| 1 <= j < docs.len() implies docs[j] == docs.drop_first()[j - 1] by {}
    }
}

/// Appending one document raises exactly its own knowledge base's count.
pub proof fn lemma_count_push(docs: Seq<DocView>, d: DocView, id: Seq<char>)
    ensures
        count_docs(docs.push(d), id) == count_docs(docs, id) + if d.kb_id == id {
            1int
        } else {
            0int
        },
{
    lemma_filter_push(docs, doc_in_kb(id), d);
}

/// Removing the single document with a given id lowers exactly its own
/// knowledge base's count by one.
pub proof fn lemma_count_remove_one(docs: Seq<DocView>, doc_id: Seq<char>, j: int, kid: Seq<char>)
    requires
        0 <= j < docs.len(),
        docs[j].id == doc_id,
        forall|i: int| 0 <= i < docs.len() && i != j ==> docs[i].id != doc_id,
    ensures
        count_docs(docs.filter(doc_survives(doc_id)), kid) == count_docs(docs, kid) - if docs[j].kb_id
            == kid {
            1int
        } else {
            0int
        },
    decreases docs.len(),
{
    let keep = doc_survives(doc_id);
    let s = docs.drop_last();
    let d = docs.last();
    assert(s.push(d) =~= docs);
    lemma_filter_push(s, keep, d);
    lemma_count_push(s, d, kid);
    if j == docs.len() - 1 {
        lemma_filter_all(s, keep);
    } else {
        lemma_count_remove_one(s, doc_id, j, kid);
        lemma_count_push(s.filter(keep), d, kid);
    }
}

/// How the knowledge-base records look after a recount of the knowledge
/// base with the given id: the first record with that id (if any) gets
/// its `document_count` recomputed over `docs` and a fresh `updated_at`;
/// every other record, and every other field, stays as it was.
pub open spec fn kbs_after_recount(
    old_kbs: Seq<KbView>,
    new_kbs: Seq<KbView>,
    docs: Seq<DocView>,
    id: Seq<char>,
) -> bool {
    let m = find_kb_index(old_kbs, id);
    &&& new_kbs.len() == old_kbs.len()
    &&& forall|i: int| 0 <= i < old_kbs.len() && i != m ==> new_kbs[i] == old_kbs[i]
    &&& m >= 0 ==> {
        &&& new_kbs[m].id == old_kbs[m].id
        &&& new_kbs[m].name == old_kbs[m].name
        &&& new_kbs[m].description == old_kbs[m].description
        &&& new_kbs[m].created_at == old_kbs[m].created_at
        &&& new_kbs[m].document_count == count_docs(docs, id)
    }
}

/// Counts the documents whose `kb_id` matches.
fn count_matching_docs(docs: &Vec<Document>, kb_id: &str) -> (r: usize)
    ensures
        r == count_docs(docs.deep_view(), kb_id@),
{
    let ghost dv = docs.deep_view();
    let mut r: usize = 0;
    let mut i: usize = 0;
    while i < docs.len()
        invariant
            0 <= i <= docs.len(),
            dv == docs.deep_view(),
            dv.len() == docs@.len(),
            r <= i,
            r == count_docs(dv.take(i as int), kb_id@),
        decreases docs.len() - i,
    {
        proof {
            assert(dv.take(i as int).push(dv[i as int]) =~= dv.take(i as int + 1));
            lemma_count_push(dv.take(i as int), dv[i as int], kb_id@);
        }
        if str_eq(docs[i].kb_id.as_str(), kb_id) {
            r += 1;
        }
        i += 1;
    }
    proof {
        assert(dv.take(docs@.len() as int) =~= dv);
    }
    r
}

/// Finds the position of the first knowledge base with the given id.
fn find_kb_pos(kbs: &Vec<KnowledgeBase>, id: &str) -> (r: Option<usize>)
    ensures
        r matches Some(k) ==> 0 <= k < kbs@.len() && find_kb_index(kbs.deep_view(), id@)
            == k as int,
        r is None ==> find_kb_index(kbs.deep_view(), id@) == -1,
{
    let ghost kv = kbs.deep_view();
    let mut i: usize = 0;
    while i < kbs.len()
        invariant
            0 <= i <= kbs.len(),
            kv == kbs.deep_view(),
            kv.len() == kbs@.len(),
            forall|j: int| 0 <= j < i ==> kv[j].id != id@,
        decreases kbs.len() - i,
    {
        if str_eq(kbs[i].id.as_str(), id) {
            proof {
                lemma_find_kb_index_at(kv, id@, i as int);
            }
            return Some(i);
        }
        i += 1;
    }
    proof {
        lemma_find_kb_index_at(kv, id@, kv.len() as int);
    }
    None
}

/// Finds the position of the first document with the given id.
fn find_doc_pos(docs: &Vec<Document>, doc_id: &str) -> (r: Option<usize>)
    ensures
        r matches Some(k) ==> 0 <= k < docs@.len() && find_doc_index(docs.deep_view(), doc_id@)
            == k as int,
        r is None ==> find_doc_index(docs.deep_view(), doc_id@) == -1,
{
    let ghost dv = docs.deep_view();
    let mut i: usize = 0;
    while i < docs.len()
        invariant
            0 <= i <= docs.len(),
            dv == docs.deep_view(),
            dv.len() == docs@.len(),
            forall|j: int| 0 <= j < i ==> dv[j].id != doc_id@,
        decreases docs.len() - i,
    {
        if str_eq(docs[i].id.as_str(), doc_id) {
            proof {
                lemma_find_doc_index_at(dv, doc_id@, i as int);
            }
            return Some(i);
        }
        i += 1;
    }
    proof {
        lemma_find_doc_index_at(dv, doc_id@, dv.len() as int);
    }
    None
}

impl KnowledgeBaseService {
    /// Parses one line as a Markdown heading: the level (1 to 6) and the
    /// trimmed heading text, or nothing when the line is no heading.
    pub fn parse_heading(&self, line: &str) -> (r: Option<(u8, String)>)
        ensures
            r is Some <==> heading_of(line@) is Some,
            r matches Some(p) ==> heading_of(line@) == Some((p.0 as int, p.1@)),
            r matches Some(p) ==> 1 <= p.0 <= 6,
    {
        parse_heading_line(line)
    }

    /// Splits a document's text into chunks and headings, as the scan
    /// specifies.
    pub fn parse_markdown(&self, content: &str) -> (r: (Vec<Chunk>, Vec<HeadingInfo>))
        ensures
            chunks_match(r.0.deep_view(), md_chunks(spec_lines(content@))),
            r.1.deep_view() == md_heads(spec_lines(content@)),
    {
        parse_markdown_text(content)
    }

    /// A store with no records.
    pub fn new() -> (s: Self)
        ensures
            s@.kbs == Seq::<KbView>::empty(),
            s@.docs == Seq::<DocView>::empty(),
    {
        let s = KnowledgeBaseService { knowledge_bases: Vec::new(), documents: Vec::new() };
        proof {
            assert(s@.kbs =~= Seq::<KbView>::empty());
            assert(s@.docs =~= Seq::<DocView>::empty());
        }
        s
    }

    /// Appends a new knowledge base with a fresh id, the given name and
    /// description, a zero document count, and equal creation and update
    /// times; returns the record that was stored. When every count was
    /// consistent before and no stored document already carries the
    /// fresh id, every count is consistent after.
    pub fn create_knowledge_base(&mut self, name: String, description: Option<String>) -> (kb:
        KnowledgeBase)
        ensures
            kb@.name == name@,
            kb@.description == opt_str_view(description),
            kb@.document_count == 0,
            kb@.created_at == kb@.updated_at,
            kb@.id.len() == 36,
            final(self)@.kbs == old(self)@.kbs.push(kb@),
            final(self)@.docs == old(self)@.docs,
            counts_consistent(old(self)@.kbs, old(self)@.docs) && count_docs(
                old(self)@.docs,
                kb@.id,
            ) == 0 ==> counts_consistent(final(self)@.kbs, final(self)@.docs),
    {
        let id = fresh_id();
        let now = now_millis();
        let kb = KnowledgeBase {
            id,
            name,
            description,
            created_at: now,
            updated_at: now,
            document_count: 0,
        };
        let stored = kb.clone();
        let ghost kdv = self.knowledge_bases.deep_view();
        self.knowledge_bases.push(stored);
        proof {
            assert(self.knowledge_bases.deep_view() =~= kdv.push(kb@));
        }
        kb
    }

    /// Returns every knowledge-base record, in storage order.
    pub fn list_knowledge_bases(&self) -> (r: Vec<KnowledgeBase>)
        ensures
            r.deep_view() == self@.kbs,
    {
        let r = self.knowledge_bases.clone();
        proof {
            assert forall|i: int| 0 <= i < self.knowledge_bases@.len() implies r@[i]@
                == self.knowledge_bases@[i]@ by {
                assert(cloned::<KnowledgeBase>(self.knowledge_bases@[i], r@[i]));
            }
            assert(r.deep_view() =~= self@.kbs);
        }
        r
    }

    /// Returns the first knowledge base with the given id, or nothing
    /// when no record matches.
    pub fn get_knowledge_base(&self, id: &str) -> (r: Option<KnowledgeBase>)
        ensures
            r is None <==> find_kb_index(self@.kbs, id@) == -1,
            r matches Some(kb) ==> find_kb_index(self@.kbs, id@) >= 0 && kb@ == self@.kbs[
                find_kb_index(self@.kbs, id@)
            ],
    {
        match find_kb_pos(&self.knowledge_bases, id) {
            Some(i) => Some(self.knowledge_bases[i].clone()),
            None => None,
        }
    }

    /// Removes the knowledge base with the given id and cascades: every
    /// document whose `kb_id` matches is removed with it. Deleting an id
    /// that no record carries changes nothing.
    pub fn delete_knowledge_base(&mut self, id: &str)
        ensures
            final(self)@.kbs == old(self)@.kbs.filter(kb_survives(id@)),
            final(self)@.docs == old(self)@.docs.filter(doc_outside_kb(id@)),
            forall|i: int|
                0 <= i < final(self)@.docs.len() ==> (#[trigger] final(self)@.docs[i]).kb_id
                    != id@,
    {
        let ghost kv = self.knowledge_bases.deep_view();
        let ghost dv = self.documents.deep_view();
        let ghost keep_kb = kb_survives(id@);
        let ghost keep_doc = doc_outside_kb(id@);
        let mut kept_kbs: Vec<KnowledgeBase> = Vec::new();
        let mut i: usize = 0;
        while i < self.knowledge_bases.len()
            invariant
                0 <= i <= self.knowledge_bases.len(),
                kv == self.knowledge_bases.deep_view(),
                kv.len() == self.knowledge_bases@.len(),
                keep_kb == kb_survives(id@),
                kept_kbs.deep_view() == kv.take(i as int).filter(keep_kb),
            decreases self.knowledge_bases.len() - i,
        {
            proof {
                assert(kv.take(i as int).push(kv[i as int]) =~= kv.take(i as int + 1));
                lemma_filter_push(kv.take(i as int), keep_kb, kv[i as int]);
            }
            if !str_eq(self.knowledge_bases[i].id.as_str(), id) {
                let ghost before = kept_kbs.deep_view();
                kept_kbs.push(self.knowledge_bases[i].clone());
                proof {
                    assert(kept_kbs.deep_view() =~= before.push(kv[i as int]));
                }
            }
            i += 1;
        }
        let mut kept_docs: Vec<Document> = Vec::new();
        let mut j: usize = 0;
        while j < self.documents.len()
            invariant
                0 <= j <= self.documents.len(),
                dv == self.documents.deep_view(),
                dv.len() == self.documents@.len(),
                keep_doc == doc_outside_kb(id@),
                kept_docs.deep_view() == dv.take(j as int).filter(keep_doc),
            decreases self.documents.len() - j,
        {
            proof {
                assert(dv.take(j as int).push(dv[j as int]) =~= dv.take(j as int + 1));
                lemma_filter_push(dv.take(j as int), keep_doc, dv[j as int]);
            }
            if !str_eq(self.documents[j].kb_id.as_str(), id) {
                let ghost before = kept_docs.deep_view();
                kept_docs.push(self.documents[j].clone());
                proof {
                    assert(kept_docs.deep_view() =~= before.push(dv[j as int]));
                }
            }
            j += 1;
        }
        self.knowledge_bases = kept_kbs;
        self.documents = kept_docs;
        proof {
            assert(kv.take(kv.len() as int) =~= kv);
            assert(dv.take(dv.len() as int) =~= dv);
            assert forall|i2: int| 0 <= i2 < self@.docs.len() implies (#[trigger] self@.docs[i2]).kb_id != id@ by {
                dv.lemma_filter_pred(keep_doc, i2);
            }
        }
    }

    /// Imports a document: derives its chunks, heading outline, counts
    /// and title from the given text, appends the new record, and then
    /// recomputes the owning knowledge base's document count by a full
    /// scan. A `kb_id` that no knowledge base carries is accepted: the
    /// document is still stored, and no count changes. When ids are
    /// unique and every count was consistent before, every count is
    /// consistent after.
    pub fn import_document(&mut self, kb_id: &str, path: &str, content: String) -> (doc: Document)
        ensures
            doc@.kb_id == kb_id@,
            doc@.path == path@,
            doc@.content == content@,
            doc@.id.len() == 36,
            chunks_match(doc@.chunks, md_chunks(spec_lines(content@))),
            doc@.metadata.headings == md_heads(spec_lines(content@)),
            doc@.metadata.word_count == nonspace_count(content@),
            doc@.metadata.line_count == spec_lines(content@).len(),
            doc@.metadata.keywords is None,
            doc@.title == title_for(md_heads(spec_lines(content@)), path@),
            final(self)@.docs == old(self)@.docs.push(doc@),
            kbs_after_recount(old(self)@.kbs, final(self)@.kbs, final(self)@.docs, kb_id@),
            kb_ids_unique(old(self)@.kbs) && counts_consistent(old(self)@.kbs, old(self)@.docs)
                ==> counts_consistent(final(self)@.kbs, final(self)@.docs),
    {
        let (chunks, headings) = parse_markdown_text(content.as_str());
        let word_count = count_nonspace(content.as_str());
        let line_count = split_lines(content.as_str()).len();
        let title = if headings.len() > 0 {
            proof {
                assert(headings.deep_view()[0] == headings@[0]@);
            }
            headings[0].text.clone()
        } else {
            let st = file_stem_str(path);
            if st.as_str().unicode_len() == 0 {
                String::from_str("Untitled")
            } else {
                st
            }
        };
        let metadata = DocumentMetadata { word_count, line_count, headings, keywords: None };
        let doc = Document {
            id: fresh_id(),
            kb_id: String::from_str(kb_id),
            path: String::from_str(path),
            title,
            content,
            chunks,
            metadata,
            created_at: now_millis(),
        };
        let stored = doc.clone();
        let ghost old_kbs = self.knowledge_bases.deep_view();
        let ghost old_docs = self.documents.deep_view();
        self.documents.push(stored);
        proof {
            assert(self.documents.deep_view() =~= old_docs.push(doc@));
        }
        let ghost new_docs = self.documents.deep_view();
        let cnt = count_matching_docs(&self.documents, kb_id);
        match find_kb_pos(&self.knowledge_bases, kb_id) {
            Some(m) => {
                let updated = {
                    let k = &self.knowledge_bases[m];
                    KnowledgeBase {
                        id: k.id.clone(),
                        name: k.name.clone(),
                        description: clone_opt_string(&k.description),
                        created_at: k.created_at,
                        updated_at: now_millis(),
                        document_count: cnt,
                    }
                };
                let ghost uv = updated@;
                self.knowledge_bases[m] = updated;
                proof {
                    assert(self.knowledge_bases.deep_view() =~= old_kbs.update(m as int, uv));
                }
            },
            None => {},
        }
        proof {
            let m = find_kb_index(old_kbs, kb_id@);
            lemma_find_kb_index(old_kbs, kb_id@);
            if kb_ids_unique(old_kbs) && counts_consistent(old_kbs, old_docs) {
                assert forall|i: int| 0 <= i < self@.kbs.len() implies (#[trigger] self@.kbs[i]).document_count == count_docs(new_docs, self@.kbs[i].id) by {
                    lemma_count_push(old_docs, doc@, self@.kbs[i].id);
                    if i != m {
                        assert(self@.kbs[i] == old_kbs[i]);
                        if old_kbs[i].id == kb_id@ {
                            assert(m >= 0);
                            assert(old_kbs[m].id == kb_id@);
                        }
                    }
                }
            }
        }
        doc
    }

    /// Returns every document of the given knowledge base, in storage
    /// order.
    pub fn get_documents(&self, kb_id: &str) -> (r: Vec<Document>)
        ensures
            r.deep_view() == self@.docs.filter(doc_in_kb(kb_id@)),
    {
        let ghost dv = self.documents.deep_view();
        let ghost keep = doc_in_kb(kb_id@);
        let mut r: Vec<Document> = Vec::new();
        let mut i: usize = 0;
        while i < self.documents.len()
            invariant
                0 <= i <= self.documents.len(),
                dv == self.documents.deep_view(),
                dv.len() == self.documents@.len(),
                keep == doc_in_kb(kb_id@),
                r.deep_view() == dv.take(i as int).filter(keep),
            decreases self.documents.len() - i,
        {
            proof {
                assert(dv.take(i as int).push(dv[i as int]) =~= dv.take(i as int + 1));
                lemma_filter_push(dv.take(i as int), keep, dv[i as int]);
            }
            if str_eq(self.documents[i].kb_id.as_str(), kb_id) {
                let ghost before = r.deep_view();
                r.push(self.documents[i].clone());
                proof {
                    assert(r.deep_view() =~= before.push(dv[i as int]));
                }
            }
            i += 1;
        }
        proof {
            assert(dv.take(dv.len() as int) =~= dv);
        }
        r
    }

    /// Removes the document with the given id, if any, and recomputes
    /// the owning knowledge base's document count. Deleting an id that
    /// no record carries changes nothing. When ids are unique and every
    /// count was consistent before, every count is consistent after.
    pub fn delete_document(&mut self, doc_id: &str)
        ensures
            final(self)@.docs == old(self)@.docs.filter(doc_survives(doc_id@)),
            find_doc_index(old(self)@.docs, doc_id@) == -1 ==> final(self)@.kbs == old(self)@.kbs,
            find_doc_index(old(self)@.docs, doc_id@) >= 0 ==> kbs_after_recount(
                old(self)@.kbs,
                final(self)@.kbs,
                final(self)@.docs,
                old(self)@.docs[find_doc_index(old(self)@.docs, doc_id@)].kb_id,
            ),
            kb_ids_unique(old(self)@.kbs) && doc_ids_unique(old(self)@.docs)
                && counts_consistent(old(self)@.kbs, old(self)@.docs) ==> counts_consistent(
                final(self)@.kbs,
                final(self)@.docs,
            ),
    {
        let ghost old_kbs = self.knowledge_bases.deep_view();
        let ghost old_docs = self.documents.deep_view();
        let ghost keep = doc_survives(doc_id@);
        let owner: Option<String> = match find_doc_pos(&self.documents, doc_id) {
            Some(p) => Some(self.documents[p].kb_id.clone()),
            None => None,
        };
        let ghost jd = find_doc_index(old_docs, doc_id@);
        let mut kept_docs: Vec<Document> = Vec::new();
        let mut i: usize = 0;
        while i < self.documents.len()
            invariant
                0 <= i <= self.documents.len(),
                old_docs == self.documents.deep_view(),
                old_docs.len() == self.documents@.len(),
                keep == doc_survives(doc_id@),
                kept_docs.deep_view() == old_docs.take(i as int).filter(keep),
            decreases self.documents.len() - i,
        {
            proof {
                assert(old_docs.take(i as int).push(old_docs[i as int]) =~= old_docs.take(
                    i as int + 1,
                ));
                lemma_filter_push(old_docs.take(i as int), keep, old_docs[i as int]);
            }
            if !str_eq(self.documents[i].id.as_str(), doc_id) {
                let ghost before = kept_docs.deep_view();
                kept_docs.push(self.documents[i].clone());
                proof {
                    assert(kept_docs.deep_view() =~= before.push(old_docs[i as int]));
                }
            }
            i += 1;
        }
        self.documents = kept_docs;
        proof {
            assert(old_docs.take(old_docs.len() as int) =~= old_docs);
        }
        let ghost new_docs = self.documents.deep_view();
        match owner {
            Some(kb_id) => {
                let cnt = count_matching_docs(&self.documents, kb_id.as_str());
                match find_kb_pos(&self.knowledge_bases, kb_id.as_str()) {
                    Some(m) => {
                        let updated = {
                            let k = &self.knowledge_bases[m];
                            KnowledgeBase {
                                id: k.id.clone(),
                                name: k.name.clone(),
                                description: clone_opt_string(&k.description),
                                created_at: k.created_at,
                                updated_at: now_millis(),
                                document_count: cnt,
                            }
                        };
                        let ghost uv = updated@;
                        self.knowledge_bases[m] = updated;
                        proof {
                            assert(self.knowledge_bases.deep_view() =~= old_kbs.update(
                                m as int,
                                uv,
                            ));
                        }
                    },
                    None => {},
                }
            },
            None => {},
        }
        proof {
            lemma_find_doc_index(old_docs, doc_id@);
            if jd >= 0 {
                let kid = old_docs[jd].kb_id;
                lemma_find_kb_index(old_kbs, kid);
            }
            if kb_ids_unique(old_kbs) && doc_ids_unique(old_docs) && counts_consistent(
                old_kbs,
                old_docs,
            ) {
                assert forall|i2: int| 0 <= i2 < self@.kbs.len() implies (#[trigger] self@.kbs[i2]).document_count == count_docs(new_docs, self@.kbs[i2].id) by {
                    if jd == -1 {
                        lemma_filter_all(old_docs, keep);
                    } else {
                        let kid = old_docs[jd].kb_id;
                        let m = find_kb_index(old_kbs, kid);
                        lemma_count_remove_one(old_docs, doc_id@, jd, self@.kbs[i2].id);
                        if i2 != m {
                            assert(self@.kbs[i2] == old_kbs[i2]);
                            if old_kbs[i2].id == kid {
                                assert(m >= 0);
                                assert(old_kbs[m].id == kid);
                            }
                        } else {
                            lemma_count_remove_one(old_docs, doc_id@, jd, kid);
                        }
                    }
                }
            }
        }
    }
}

} // verus!
