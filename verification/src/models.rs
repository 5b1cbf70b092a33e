//! The value records of the knowledge base: chunks, heading entries,
//! document metadata, documents and knowledge bases, together with their
//! mathematical views and deep-copying `Clone` implementations.

use vstd::prelude::*;

verus! {

/// The view of one heading entry: its level (1 to 6), its text, and the
/// zero-based line index it was found at.
pub struct HeadData {
    pub level: int,
    pub text: Seq<char>,
    pub line: int,
}

/// The view of one chunk.
pub struct ChunkView {
    pub id: Seq<char>,
    pub content: Seq<char>,
    pub start_line: int,
    pub end_line: int,
    pub headings: Seq<Seq<char>>,
}

/// The view of a document's metadata.
pub struct MetaView {
    pub word_count: int,
    pub line_count: int,
    pub headings: Seq<HeadData>,
    pub keywords: Option<Seq<Seq<char>>>,
}

/// The view of a document record.
pub struct DocView {
    pub id: Seq<char>,
    pub kb_id: Seq<char>,
    pub path: Seq<char>,
    pub title: Seq<char>,
    pub content: Seq<char>,
    pub chunks: Seq<ChunkView>,
    pub metadata: MetaView,
    pub created_at: int,
}

/// The view of a knowledge-base record.
pub struct KbView {
    pub id: Seq<char>,
    pub name: Seq<char>,
    pub description: Option<Seq<char>>,
    pub created_at: int,
    pub updated_at: int,
    pub document_count: int,
}

/// One heading found in a document.
#[derive(Debug, PartialEq, Eq)]
pub struct HeadingInfo {
    pub level: u8,
    pub text: String,
    pub line: usize,
}

/// One chunk of a document: a contiguous, non-empty piece of its text,
/// with the inclusive zero-based line range it came from and the stack of
/// ancestor heading texts in effect at its first line.
#[derive(Debug, PartialEq, Eq)]
pub struct Chunk {
    pub id: String,
    pub content: String,
    pub start_line: usize,
    pub end_line: usize,
    pub headings: Vec<String>,
}

/// Derived metadata of a document: its non-whitespace character count,
/// its line count, and every heading in document order.
#[derive(Debug, PartialEq, Eq)]
pub struct DocumentMetadata {
    pub word_count: usize,
    pub line_count: usize,
    pub headings: Vec<HeadingInfo>,
    pub keywords: Option<Vec<String>>,
}

/// A document imported into a knowledge base.
#[derive(Debug, PartialEq, Eq)]
pub struct Document {
    pub id: String,
    pub kb_id: String,
    pub path: String,
    pub title: String,
    pub content: String,
    pub chunks: Vec<Chunk>,
    pub metadata: DocumentMetadata,
    pub created_at: i64,
}

/// A knowledge base. `document_count` is a derived cache, recomputed from
/// the document set whenever it changes; `updated_at` advances with it.
#[derive(Debug, PartialEq, Eq)]
pub struct KnowledgeBase {
    pub id: String,
    pub name: String,
    pub description: Option<String>,
    pub created_at: i64,
    pub updated_at: i64,
    pub document_count: usize,
}

/// A request to generate derived material over a knowledge base.
#[derive(Debug, PartialEq, Eq)]
pub struct GenerateRequest {
    pub kb_id: String,
    pub generate_type: GenerateType,
    pub topic: Option<String>,
}

/// The kind of derived material asked for.
#[derive(Debug, PartialEq, Eq)]
pub enum GenerateType {
    Summary,
    PptOutline,
    TopicReport,
}

/// The outcome of a generation request.
#[derive(Debug, PartialEq, Eq)]
pub struct GenerateResult {
    pub success: bool,
    pub output_path: String,
    pub content: String,
}

/// The view of an optional string.
pub open spec fn opt_str_view(o: Option<String>) -> Option<Seq<char>> {
    match o {
        Some(s) => Some(s@),
        None => None,
    }
}

impl View for HeadingInfo {
    type V = HeadData;

    open spec fn view(&self) -> HeadData {
        HeadData { level: self.level as int, text: self.text@, line: self.line as int }
    }
}

impl DeepView for HeadingInfo {
    type V = HeadData;

    open spec fn deep_view(&self) -> HeadData {
        self.view()
    }
}

impl View for Chunk {
    type V = ChunkView;

    open spec fn view(&self) -> ChunkView {
        ChunkView {
            id: self.id@,
            content: self.content@,
            start_line: self.start_line as int,
            end_line: self.end_line as int,
            headings: self.headings.deep_view(),
        }
    }
}

impl DeepView for Chunk {
    type V = ChunkView;

    open spec fn deep_view(&self) -> ChunkView {
        self.view()
    }
}

impl View for DocumentMetadata {
    type V = MetaView;

    open spec fn view(&self) -> MetaView {
        MetaView {
            word_count: self.word_count as int,
            line_count: self.line_count as int,
            headings: self.headings.deep_view(),
            keywords: match self.keywords {
                Some(ks) => Some(ks.deep_view()),
                None => None,
            },
        }
    }
}

impl View for Document {
    type V = DocView;

    open spec fn view(&self) -> DocView {
        DocView {
            id: self.id@,
            kb_id: self.kb_id@,
            path: self.path@,
            title: self.title@,
            content: self.content@,
            chunks: self.chunks.deep_view(),
            metadata: self.metadata@,
            created_at: self.created_at as int,
        }
    }
}

impl DeepView for Document {
    type V = DocView;

    open spec fn deep_view(&self) -> DocView {
        self.view()
    }
}

impl View for KnowledgeBase {
    type V = KbView;

    open spec fn view(&self) -> KbView {
        KbView {
            id: self.id@,
            name: self.name@,
            description: opt_str_view(self.description),
            created_at: self.created_at as int,
            updated_at: self.updated_at as int,
            document_count: self.document_count as int,
        }
    }
}

impl DeepView for KnowledgeBase {
    type V = KbView;

    open spec fn deep_view(&self) -> KbView {
        self.view()
    }
}

/// Copies a vector of strings, element for element.
pub fn clone_strings(v: &Vec<String>) -> (r: Vec<String>)
    ensures
        r@ == v@,
        r.deep_view() == v.deep_view(),
{
    let r = v.clone();
    proof {
        assert forall|i: int| 0 <= i < v@.len() implies r@[i] == v@[i] by {
            assert(cloned::<String>(v@[i], r@[i]));
        }
        assert(r@ =~= v@);
        assert(r.deep_view() =~= v.deep_view());
    }
    r
}

/// Copies an optional string.
pub fn clone_opt_string(o: &Option<String>) -> (r: Option<String>)
    ensures
        opt_str_view(r) == opt_str_view(*o),
{
    match o {
        Some(s) => Some(s.clone()),
        None => None,
    }
}

impl Clone for HeadingInfo {
    fn clone(&self) -> (r: Self)
        ensures
            r@ == self@,
    {
        HeadingInfo { level: self.level, text: self.text.clone(), line: self.line }
    }
}

impl Clone for Chunk {
    fn clone(&self) -> (r: Self)
        ensures
            r@ == self@,
    {
        Chunk {
            id: self.id.clone(),
            content: self.content.clone(),
            start_line: self.start_line,
            end_line: self.end_line,
            headings: clone_strings(&self.headings),
        }
    }
}

impl Clone for DocumentMetadata {
    fn clone(&self) -> (r: Self)
        ensures
            r@ == self@,
    {
        let heads = self.headings.clone();
        proof {
            assert forall|i: int| 0 <= i < self.headings@.len() implies heads@[i]@
                == self.headings@[i]@ by {
                assert(cloned::<HeadingInfo>(self.headings@[i], heads@[i]));
            }
            assert(heads.deep_view() =~= self.headings.deep_view());
        }
        let keywords = match &self.keywords {
            Some(ks) => Some(clone_strings(ks)),
            None => None,
        };
        DocumentMetadata {
            word_count: self.word_count,
            line_count: self.line_count,
            headings: heads,
            keywords,
        }
    }
}

impl Clone for Document {
    fn clone(&self) -> (r: Self)
        ensures
            r@ == self@,
    {
        let chunks = self.chunks.clone();
        proof {
            assert forall|i: int| 0 <= i < self.chunks@.len() implies chunks@[i]@
                == self.chunks@[i]@ by {
                assert(cloned::<Chunk>(self.chunks@[i], chunks@[i]));
            }
            assert(chunks.deep_view() =~= self.chunks.deep_view());
        }
        Document {
            id: self.id.clone(),
            kb_id: self.kb_id.clone(),
            path: self.path.clone(),
            title: self.title.clone(),
            content: self.content.clone(),
            chunks,
            metadata: self.metadata.clone(),
            created_at: self.created_at,
        }
    }
}

impl Clone for KnowledgeBase {
    fn clone(&self) -> (r: Self)
        ensures
            r@ == self@,
    {
        KnowledgeBase {
            id: self.id.clone(),
            name: self.name.clone(),
            description: clone_opt_string(&self.description),
            created_at: self.created_at,
            updated_at: self.updated_at,
            document_count: self.document_count,
        }
    }
}

} // verus!
