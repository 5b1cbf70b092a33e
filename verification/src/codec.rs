//! The persisted form of the store: one JSON document holding the
//! knowledge-base records and the document records. The encoder is
//! verified to emit exactly the canonical text that `enc_store` below
//! specifies; the decoder accepts a text only when it is such a
//! canonical encoding, so whatever loads is exactly what was saved.
//!
//! The canonical text is compact — one line, with no insignificant
//! whitespace — so that equality of texts is equality of records, and a
//! re-encoding check can decide whether a text is canonical.

use vstd::prelude::*;
use crate::models::{
    Chunk, ChunkView, DocView, Document, DocumentMetadata, HeadData, HeadingInfo, KbView,
    KnowledgeBase,
};
use crate::store::{KnowledgeBaseService, StoreView};
use crate::text::str_eq;

verus! {

/// Relies on `String::push`: appends exactly the one character.
#[verifier::external_body]
fn push_char(s: &mut String, c: char)
    ensures
        final(s)@ == old(s)@.push(c),
{
    s.push(c);
}

/// The digit character of a value from 0 to 9.
pub open spec fn digit(d: int) -> char {
    if d == 0 {
        '0'
    } else if d == 1 {
        '1'
    } else if d == 2 {
        '2'
    } else if d == 3 {
        '3'
    } else if d == 4 {
        '4'
    } else if d == 5 {
        '5'
    } else if d == 6 {
        '6'
    } else if d == 7 {
        '7'
    } else if d == 8 {
        '8'
    } else {
        '9'
    }
}

/// The decimal digits of a non-negative value.
pub open spec fn dec_digits(n: int) -> Seq<char>
    decreases n,
{
    if n < 10 {
        seq![digit(n)]
    } else {
        dec_digits(n / 10) + seq![digit(n % 10)]
    }
}

/// The decimal form of a value, with a leading minus when negative.
pub open spec fn dec_int(n: int) -> Seq<char> {
    if n < 0 {
        seq!['-'] + dec_digits(-n)
    } else {
        dec_digits(n)
    }
}

fn digit_char(d: u8) -> (c: char)
    requires
        d < 10,
    ensures
        c == digit(d as int),
{
    if d == 0 {
        '0'
    } else if d == 1 {
        '1'
    } else if d == 2 {
        '2'
    } else if d == 3 {
        '3'
    } else if d == 4 {
        '4'
    } else if d == 5 {
        '5'
    } else if d == 6 {
        '6'
    } else if d == 7 {
        '7'
    } else if d == 8 {
        '8'
    } else {
        '9'
    }
}

/// Appends the decimal digits of a value.
fn write_dec_u128(out: &mut String, n: u128)
    ensures
        final(out)@ == old(out)@ + dec_digits(n as int),
    decreases n,
{
    if n < 10 {
        push_char(out, digit_char(n as u8));
    } else {
        write_dec_u128(out, n / 10);
        push_char(out, digit_char((n % 10) as u8));
        proof {
            assert(old(out)@ + dec_digits(n as int) =~= (old(out)@ + dec_digits(n as int / 10)).push(
                digit(n as int % 10),
            ));
        }
    }
}

/// Appends the decimal form of a `usize`.
fn write_usize(out: &mut String, n: usize)
    ensures
        final(out)@ == old(out)@ + dec_digits(n as int),
{
    write_dec_u128(out, n as u128);
}

/// Appends the decimal form of an `i64`.
fn write_i64(out: &mut String, n: i64)
    ensures
        final(out)@ == old(out)@ + dec_int(n as int),
{
    if n < 0 {
        push_char(out, '-');
        let m: u128 = (-(n as i128)) as u128;
        write_dec_u128(out, m);
        proof {
            assert(old(out)@ + dec_int(n as int) =~= (old(out)@.push('-')) + dec_digits(m as int));
        }
    } else {
        write_dec_u128(out, n as u128);
    }
}

/// How one character is written inside a JSON string: quotes,
/// backslashes, newlines, carriage returns and tabs are escaped, any
/// other character stands for itself.
pub open spec fn esc_char(c: char) -> Seq<char> {
    if c == '"' {
        seq!['\\', '"']
    } else if c == '\\' {
        seq!['\\', '\\']
    } else if c == '\n' {
        seq!['\\', 'n']
    } else if c == '\r' {
        seq!['\\', 'r']
    } else if c == '\t' {
        seq!['\\', 't']
    } else {
        seq![c]
    }
}

/// A character sequence escaped for a JSON string body.
pub open spec fn esc_str(s: Seq<char>) -> Seq<char>
    decreases s.len(),
{
    if s.len() == 0 {
        Seq::empty()
    } else {
        esc_str(s.drop_last()) + esc_char(s.last())
    }
}

/// A quoted, escaped JSON string.
pub open spec fn json_str(s: Seq<char>) -> Seq<char> {
    seq!['"'] + esc_str(s) + seq!['"']
}

/// Appends a value as a quoted JSON string.
fn write_json_str(out: &mut String, s: &str)
    ensures
        final(out)@ == old(out)@ + json_str(s@),
{
    let ghost start = out@;
    push_char(out, '"');
    let n = s.unicode_len();
    let mut i: usize = 0;
    while i < n
        invariant
            0 <= i <= n,
            n == s@.len(),
            out@ == start + seq!['"'] + esc_str(s@.take(i as int)),
        decreases n - i,
    {
        let ghost before = out@;
        let c = s.get_char(i);
        if c == '"' {
            push_char(out, '\\');
            push_char(out, '"');
        } else if c == '\\' {
            push_char(out, '\\');
            push_char(out, '\\');
        } else if c == '\n' {
            push_char(out, '\\');
            push_char(out, 'n');
        } else if c == '\r' {
            push_char(out, '\\');
            push_char(out, 'r');
        } else if c == '\t' {
            push_char(out, '\\');
            push_char(out, 't');
        } else {
            push_char(out, c);
        }
        proof {
            let t = s@.take(i as int + 1);
            assert(t.drop_last() =~= s@.take(i as int));
            assert(t.last() == s@[i as int]);
            assert(out@ =~= before + esc_char(s@[i as int]));
            assert(out@ =~= start + seq!['"'] + esc_str(t));
        }
        i += 1;
    }
    push_char(out, '"');
    proof {
        assert(s@.take(n as int) =~= s@);
        assert(out@ =~= start + json_str(s@));
    }
}

/// Comma-joined pieces, as a JSON array body.
pub open spec fn join_comma(ss: Seq<Seq<char>>) -> Seq<char>
    decreases ss.len(),
{
    if ss.len() == 0 {
        Seq::empty()
    } else if ss.len() == 1 {
        ss[0]
    } else {
        join_comma(ss.drop_last()) + seq![','] + ss.last()
    }
}

/// A JSON array of strings.
pub open spec fn enc_str_arr(ss: Seq<Seq<char>>) -> Seq<char> {
    seq!['['] + join_comma(ss.map_values(|s: Seq<char>| json_str(s))) + seq![']']
}

/// The optional description field, omitted when absent.
pub open spec fn enc_desc(d: Option<Seq<char>>) -> Seq<char> {
    match d {
        Some(s) => ",\"description\":"@ + json_str(s),
        None => Seq::empty(),
    }
}

/// The optional keywords field, omitted when absent.
pub open spec fn enc_keywords(ks: Option<Seq<Seq<char>>>) -> Seq<char> {
    match ks {
        Some(ss) => ",\"keywords\":"@ + enc_str_arr(ss),
        None => Seq::empty(),
    }
}

/// A knowledge-base record as JSON.
pub open spec fn enc_kb(k: KbView) -> Seq<char> {
    "{\"id\":"@ + json_str(k.id) + ",\"name\":"@ + json_str(k.name) + enc_desc(k.description)
        + ",\"createdAt\":"@ + dec_int(k.created_at) + ",\"updatedAt\":"@ + dec_int(k.updated_at)
        + ",\"documentCount\":"@ + dec_digits(k.document_count) + "}"@
}

/// A heading entry as JSON.
pub open spec fn enc_head(h: HeadData) -> Seq<char> {
    "{\"level\":"@ + dec_digits(h.level) + ",\"text\":"@ + json_str(h.text) + ",\"line\":"@
        + dec_digits(h.line) + "}"@
}

/// A chunk as JSON.
pub open spec fn enc_chunk(c: ChunkView) -> Seq<char> {
    "{\"id\":"@ + json_str(c.id) + ",\"content\":"@ + json_str(c.content) + ",\"startLine\":"@
        + dec_digits(c.start_line) + ",\"endLine\":"@ + dec_digits(c.end_line) + ",\"headings\":"@
        + enc_str_arr(c.headings) + "}"@
}

/// A document's metadata as JSON.
pub open spec fn enc_meta(m: crate::models::MetaView) -> Seq<char> {
    "{\"wordCount\":"@ + dec_digits(m.word_count) + ",\"lineCount\":"@ + dec_digits(m.line_count)
        + ",\"headings\":["@ + join_comma(m.headings.map_values(|h: HeadData| enc_head(h))) + "]"@
        + enc_keywords(m.keywords) + "}"@
}

/// A document record as JSON.
pub open spec fn enc_doc(d: DocView) -> Seq<char> {
    "{\"id\":"@ + json_str(d.id) + ",\"kbId\":"@ + json_str(d.kb_id) + ",\"path\":"@ + json_str(
        d.path,
    ) + ",\"title\":"@ + json_str(d.title) + ",\"content\":"@ + json_str(d.content)
        + ",\"chunks\":["@ + join_comma(d.chunks.map_values(|c: ChunkView| enc_chunk(c))) + "],\"metadata\":"@
        + enc_meta(d.metadata) + ",\"createdAt\":"@ + dec_int(d.created_at) + "}"@
}

/// The whole store snapshot as one JSON document.
pub open spec fn enc_store(sv: StoreView) -> Seq<char> {
    "{\"knowledgeBases\":["@ + join_comma(sv.kbs.map_values(|k: KbView| enc_kb(k)))
        + "],\"documents\":["@ + join_comma(sv.docs.map_values(|d: DocView| enc_doc(d))) + "]}"@
}

/// Appends a JSON array of strings.
fn write_str_arr(out: &mut String, ss: &Vec<String>)
    ensures
        final(out)@ == old(out)@ + enc_str_arr(ss.deep_view()),
{
    let ghost start = out@;
    let ghost mapped = ss.deep_view().map_values(|s: Seq<char>| json_str(s));
    push_char(out, '[');
    let mut i: usize = 0;
    while i < ss.len()
        invariant
            0 <= i <= ss.len(),
            mapped == ss.deep_view().map_values(|s: Seq<char>| json_str(s)),
            mapped.len() == ss@.len(),
            out@ == start + seq!['['] + join_comma(mapped.take(i as int)),
        decreases ss.len() - i,
    {
        let ghost before = out@;
        if i > 0 {
            push_char(out, ',');
        }
        write_json_str(out, ss[i].as_str());
        proof {
            let t = mapped.take(i as int + 1);
            assert(t.drop_last() =~= mapped.take(i as int));
            assert(t.last() == mapped[i as int]);
            assert(mapped[i as int] == json_str(ss.deep_view()[i as int]));
            assert(out@ =~= start + seq!['['] + join_comma(t));
        }
        i += 1;
    }
    push_char(out, ']');
    proof {
        assert(mapped.take(mapped.len() as int) =~= mapped);
        assert(out@ =~= start + enc_str_arr(ss.deep_view()));
    }
}

/// Appends a knowledge-base record as JSON.
fn write_kb(out: &mut String, k: &KnowledgeBase)
    ensures
        final(out)@ == old(out)@ + enc_kb(k@),
{
    let ghost start = out@;
    out.append("{\"id\":");
    write_json_str(out, k.id.as_str());
    out.append(",\"name\":");
    write_json_str(out, k.name.as_str());
    match &k.description {
        Some(d) => {
            out.append(",\"description\":");
            write_json_str(out, d.as_str());
        },
        None => {},
    }
    out.append(",\"createdAt\":");
    write_i64(out, k.created_at);
    out.append(",\"updatedAt\":");
    write_i64(out, k.updated_at);
    out.append(",\"documentCount\":");
    write_usize(out, k.document_count);
    out.append("}");
    proof {
        assert(out@ =~= start + enc_kb(k@));
    }
}

/// Appends a heading entry as JSON.
fn write_head(out: &mut String, h: &HeadingInfo)
    ensures
        final(out)@ == old(out)@ + enc_head(h@),
{
    let ghost start = out@;
    out.append("{\"level\":");
    write_usize(out, h.level as usize);
    out.append(",\"text\":");
    write_json_str(out, h.text.as_str());
    out.append(",\"line\":");
    write_usize(out, h.line);
    out.append("}");
    proof {
        assert(out@ =~= start + enc_head(h@));
    }
}

/// Appends a chunk as JSON.
fn write_chunk(out: &mut String, c: &Chunk)
    ensures
        final(out)@ == old(out)@ + enc_chunk(c@),
{
    let ghost start = out@;
    out.append("{\"id\":");
    write_json_str(out, c.id.as_str());
    out.append(",\"content\":");
    write_json_str(out, c.content.as_str());
    out.append(",\"startLine\":");
    write_usize(out, c.start_line);
    out.append(",\"endLine\":");
    write_usize(out, c.end_line);
    out.append(",\"headings\":");
    write_str_arr(out, &c.headings);
    out.append("}");
    proof {
        assert(out@ =~= start + enc_chunk(c@));
    }
}

/// Appends a document's metadata as JSON.
#[verifier::rlimit(60)]
fn write_meta(out: &mut String, m: &DocumentMetadata)
    ensures
        final(out)@ == old(out)@ + enc_meta(m@),
{
    let ghost start = out@;
    let ghost mapped = m.headings.deep_view().map_values(|h: HeadData| enc_head(h));
    out.append("{\"wordCount\":");
    write_usize(out, m.word_count);
    out.append(",\"lineCount\":");
    write_usize(out, m.line_count);
    out.append(",\"headings\":[");
    let ghost mid = out@;
    let mut i: usize = 0;
    while i < m.headings.len()
        invariant
            0 <= i <= m.headings.len(),
            mapped == m.headings.deep_view().map_values(|h: HeadData| enc_head(h)),
            mapped.len() == m.headings@.len(),
            out@ == mid + join_comma(mapped.take(i as int)),
        decreases m.headings.len() - i,
    {
        if i > 0 {
            push_char(out, ',');
        }
        write_head(out, &m.headings[i]);
        proof {
            let t = mapped.take(i as int + 1);
            assert(t.drop_last() =~= mapped.take(i as int));
            assert(t.last() == mapped[i as int]);
            assert(mapped[i as int] == enc_head(m.headings.deep_view()[i as int]));
            assert(out@ =~= mid + join_comma(t));
        }
        i += 1;
    }
    proof {
        assert(mapped.take(mapped.len() as int) =~= mapped);
    }
    out.append("]");
    match &m.keywords {
        Some(ks) => {
            out.append(",\"keywords\":");
            write_str_arr(out, ks);
        },
        None => {},
    }
    out.append("}");
    proof {
        assert(out@ =~= start + enc_meta(m@));
    }
}

/// Appends a document record as JSON.
#[verifier::rlimit(60)]
fn write_doc(out: &mut String, d: &Document)
    ensures
        final(out)@ == old(out)@ + enc_doc(d@),
{
    let ghost start = out@;
    let ghost mapped = d.chunks.deep_view().map_values(|c: ChunkView| enc_chunk(c));
    out.append("{\"id\":");
    write_json_str(out, d.id.as_str());
    out.append(",\"kbId\":");
    write_json_str(out, d.kb_id.as_str());
    out.append(",\"path\":");
    write_json_str(out, d.path.as_str());
    out.append(",\"title\":");
    write_json_str(out, d.title.as_str());
    out.append(",\"content\":");
    write_json_str(out, d.content.as_str());
    out.append(",\"chunks\":[");
    let ghost mid = out@;
    let mut i: usize = 0;
    while i < d.chunks.len()
        invariant
            0 <= i <= d.chunks.len(),
            mapped == d.chunks.deep_view().map_values(|c: ChunkView| enc_chunk(c)),
            mapped.len() == d.chunks@.len(),
            out@ == mid + join_comma(mapped.take(i as int)),
        decreases d.chunks.len() - i,
    {
        if i > 0 {
            push_char(out, ',');
        }
        write_chunk(out, &d.chunks[i]);
        proof {
            let t = mapped.take(i as int + 1);
            assert(t.drop_last() =~= mapped.take(i as int));
            assert(t.last() == mapped[i as int]);
            assert(mapped[i as int] == enc_chunk(d.chunks.deep_view()[i as int]));
            assert(out@ =~= mid + join_comma(t));
        }
        i += 1;
    }
    proof {
        assert(mapped.take(mapped.len() as int) =~= mapped);
    }
    out.append("],\"metadata\":");
    write_meta(out, &d.metadata);
    out.append(",\"createdAt\":");
    write_i64(out, d.created_at);
    out.append("}");
    proof {
        assert(out@ =~= start + enc_doc(d@));
    }
}

/// Serializes the whole store snapshot into its canonical JSON text.
#[verifier::rlimit(60)]
pub fn encode_store(srv: &KnowledgeBaseService) -> (r: String)
    ensures
        r@ == enc_store(srv@),
{
    let mut out = String::new();
    let ghost kmapped = srv.knowledge_bases.deep_view().map_values(|k: KbView| enc_kb(k));
    let ghost dmapped = srv.documents.deep_view().map_values(|d: DocView| enc_doc(d));
    out.append("{\"knowledgeBases\":[");
    let ghost mid = out@;
    let mut i: usize = 0;
    while i < srv.knowledge_bases.len()
        invariant
            0 <= i <= srv.knowledge_bases.len(),
            kmapped == srv.knowledge_bases.deep_view().map_values(|k: KbView| enc_kb(k)),
            kmapped.len() == srv.knowledge_bases@.len(),
            out@ == mid + join_comma(kmapped.take(i as int)),
        decreases srv.knowledge_bases.len() - i,
    {
        if i > 0 {
            push_char(&mut out, ',');
        }
        write_kb(&mut out, &srv.knowledge_bases[i]);
        proof {
            let t = kmapped.take(i as int + 1);
            assert(t.drop_last() =~= kmapped.take(i as int));
            assert(t.last() == kmapped[i as int]);
            assert(kmapped[i as int] == enc_kb(srv.knowledge_bases.deep_view()[i as int]));
            assert(out@ =~= mid + join_comma(t));
        }
        i += 1;
    }
    proof {
        assert(kmapped.take(kmapped.len() as int) =~= kmapped);
    }
    out.append("],\"documents\":[");
    let ghost mid2 = out@;
    let mut j: usize = 0;
    while j < srv.documents.len()
        invariant
            0 <= j <= srv.documents.len(),
            dmapped == srv.documents.deep_view().map_values(|d: DocView| enc_doc(d)),
            dmapped.len() == srv.documents@.len(),
            out@ == mid2 + join_comma(dmapped.take(j as int)),
        decreases srv.documents.len() - j,
    {
        if j > 0 {
            push_char(&mut out, ',');
        }
        write_doc(&mut out, &srv.documents[j]);
        proof {
            let t = dmapped.take(j as int + 1);
            assert(t.drop_last() =~= dmapped.take(j as int));
            assert(t.last() == dmapped[j as int]);
            assert(dmapped[j as int] == enc_doc(srv.documents.deep_view()[j as int]));
            assert(out@ =~= mid2 + join_comma(t));
        }
        j += 1;
    }
    proof {
        assert(dmapped.take(dmapped.len() as int) =~= dmapped);
    }
    out.append("]}");
    proof {
        assert(out@ =~= enc_store(srv@));
    }
    out
}

// ---------------------------------------------------------------------
// The reader. It parses the canonical shape back into records; its own
// contracts only say that a successful parse consumes text. Soundness
// does not rest on it: `decode_store` re-encodes what was parsed and
// accepts the text only when the two are identical.
// ---------------------------------------------------------------------

/// Whether the given piece of text stands at position `i` of `s`.
pub open spec fn text_at(s: Seq<char>, i: int, piece: Seq<char>) -> bool {
    &&& 0 <= i
    &&& i + piece.len() <= s.len()
    &&& s.subrange(i, i + piece.len()) == piece
}

/// Whether a decimal digit stands at position `p` of `s`.
pub open spec fn digit_at(s: Seq<char>, p: int) -> bool {
    0 <= p < s.len() && 48 <= s[p] as u32 <= 57
}

/// Text standing at a position splits into its two parts.
proof fn lemma_text_at_split(s: Seq<char>, i: int, a: Seq<char>, b: Seq<char>)
    requires
        text_at(s, i, a + b),
    ensures
        text_at(s, i, a),
        text_at(s, i + a.len(), b),
{
    let ab = a + b;
    assert forall|j: int| 0 <= j < a.len() implies s.subrange(i, i + a.len())[j] == a[j] by {
        assert(s.subrange(i, i + ab.len())[j] == ab[j]);
    }
    assert(s.subrange(i, i + a.len()) =~= a);
    assert forall|j: int|
        0 <= j < b.len() implies s.subrange(i + a.len(), i + a.len() + b.len())[j] == b[j] by {
        assert(s.subrange(i, i + ab.len())[a.len() + j] == ab[a.len() + j]);
    }
    assert(s.subrange(i + a.len(), i + a.len() + b.len()) =~= b);
}

/// Consumes an expected non-empty literal at position `i`: it succeeds
/// exactly when the literal stands there.
fn expect(s: &str, i: usize, lit: &str) -> (r: Option<usize>)
    ensures
        r matches Some(j) ==> i < j <= s@.len() && j as int == i + lit@.len(),
        r is Some <==> (lit@.len() > 0 && text_at(s@, i as int, lit@)),
{
    let n = s.unicode_len();
    let m = lit.unicode_len();
    if m == 0 || m > n || i > n - m {
        return None;
    }
    let mut j: usize = 0;
    while j < m
        invariant
            0 <= j <= m,
            n == s@.len(),
            m == lit@.len(),
            0 < m,
            i + m <= n,
            forall|jj: int| 0 <= jj < j ==> s@[i + jj] == lit@[jj],
        decreases m - j,
    {
        if s.get_char(i + j) != lit.get_char(j) {
            proof {
                if text_at(s@, i as int, lit@) {
                    assert(s@.subrange(i as int, i + lit@.len())[j as int] == lit@[j as int]);
                }
            }
            return None;
        }
        j += 1;
    }
    proof {
        assert(s@.subrange(i as int, i + lit@.len()) =~= lit@);
    }
    Some(i + m)
}

/// The numeric value of a run of decimal digit characters.
pub open spec fn dec_val(ds: Seq<char>) -> int
    decreases ds.len(),
{
    if ds.len() == 0 {
        0
    } else {
        dec_val(ds.drop_last()) * 10 + (ds.last() as u32 - 48)
    }
}

/// The decimal digits of a value are digit characters, at least one.
proof fn lemma_dec_digits_props(v: int)
    requires
        0 <= v,
    ensures
        dec_digits(v).len() >= 1,
        forall|j: int| 0 <= j < dec_digits(v).len() ==> 48 <= (#[trigger] dec_digits(v)[j]) as u32
            <= 57,
    decreases v,
{
    if v >= 10 {
        lemma_dec_digits_props(v / 10);
    }
}

/// Reading the decimal digits of a value back gives the value.
proof fn lemma_dec_val_of(v: int)
    requires
        0 <= v,
    ensures
        dec_val(dec_digits(v)) == v,
    decreases v,
{
    if v < 10 {
        assert(dec_digits(v) == seq![digit(v)]);
        assert(dec_digits(v).drop_last() =~= Seq::<char>::empty());
        assert(dec_digits(v).last() == digit(v));
        assert(digit(v) as u32 - 48 == v) by {
            if v == 0 {
                assert(digit(v) == '0');
            }
        }
        assert(dec_val(dec_digits(v)) == dec_val(Seq::<char>::empty()) * 10 + (digit(v) as u32
            - 48));
    } else {
        lemma_dec_val_of(v / 10);
        lemma_dec_digits_props(v / 10);
        assert(dec_digits(v) == dec_digits(v / 10) + seq![digit(v % 10)]);
        assert(dec_digits(v).drop_last() =~= dec_digits(v / 10));
        assert(dec_digits(v).last() == digit(v % 10));
        assert(digit(v % 10) as u32 - 48 == v % 10) by {
            if v % 10 == 0 {
                assert(digit(v % 10) == '0');
            }
        }
        assert(dec_val(dec_digits(v)) == dec_val(dec_digits(v / 10)) * 10 + (digit(v % 10) as u32
            - 48));
    }
}

/// The value of a digit run is never negative.
proof fn lemma_dec_val_nonneg(ds: Seq<char>)
    requires
        forall|j: int| 0 <= j < ds.len() ==> 48 <= (#[trigger] ds[j]) as u32 <= 57,
    ensures
        dec_val(ds) >= 0,
    decreases ds.len(),
{
    if ds.len() > 0 {
        lemma_dec_val_nonneg(ds.drop_last());
    }
}

/// The value of a prefix of a digit run never exceeds the whole.
proof fn lemma_dec_val_prefix(ds: Seq<char>, k: int)
    requires
        forall|j: int| 0 <= j < ds.len() ==> 48 <= (#[trigger] ds[j]) as u32 <= 57,
        0 <= k <= ds.len(),
    ensures
        0 <= dec_val(ds.take(k)) <= dec_val(ds),
    decreases ds.len() - k,
{
    assert forall|j: int| 0 <= j < k implies 48 <= (#[trigger] ds.take(k)[j]) as u32 <= 57 by {
        assert(ds.take(k)[j] == ds[j]);
    }
    lemma_dec_val_nonneg(ds.take(k));
    if k == ds.len() {
        assert(ds.take(k) =~= ds);
    } else {
        lemma_dec_val_prefix(ds, k + 1);
        assert(ds.take(k + 1).drop_last() =~= ds.take(k));
        assert(dec_val(ds.take(k + 1)) == dec_val(ds.take(k)) * 10 + (ds[k] as u32 - 48));
    }
}

/// Escaping distributes over concatenation.
proof fn lemma_esc_concat(a: Seq<char>, b: Seq<char>)
    ensures
        esc_str(a + b) == esc_str(a) + esc_str(b),
    decreases b.len(),
{
    if b.len() == 0 {
        assert(a + b =~= a);
        assert(esc_str(a) + esc_str(b) =~= esc_str(a));
    } else {
        lemma_esc_concat(a, b.drop_last());
        assert((a + b).drop_last() =~= a + b.drop_last());
        assert((a + b).last() == b.last());
        assert(esc_str(a) + esc_str(b.drop_last()) + esc_char(b.last()) =~= esc_str(a) + (esc_str(
            b.drop_last(),
        ) + esc_char(b.last())));
    }
}

/// The escaped text decomposes at any split of the source: what stands
/// after the escaped prefix is the escaped remainder, starting with the
/// escape of the split character.
proof fn lemma_esc_at(v: Seq<char>, k: int)
    requires
        0 <= k < v.len(),
    ensures
        esc_str(v) == esc_str(v.take(k)) + esc_char(v[k]) + esc_str(v.skip(k + 1)),
        esc_str(v.take(k + 1)) == esc_str(v.take(k)) + esc_char(v[k]),
        esc_str(v.take(k)).len() <= esc_str(v).len() - 1,
{
    assert(v =~= v.take(k + 1) + v.skip(k + 1));
    lemma_esc_concat(v.take(k + 1), v.skip(k + 1));
    assert(v.take(k + 1).drop_last() =~= v.take(k));
    assert(v.take(k + 1).last() == v[k]);
    assert(esc_str(v.take(k)) + esc_char(v[k]) + esc_str(v.skip(k + 1)) =~= (esc_str(v.take(k))
        + esc_char(v[k])) + esc_str(v.skip(k + 1)));
    assert(esc_char(v[k]).len() >= 1);
}

/// Where the scan stands inside a quoted string: after `k` source
/// characters, the text shows the escape of the next character, or the
/// closing quote when all characters are done.
proof fn lemma_qstr_step(s: Seq<char>, i: int, j: int, k: int, v: Seq<char>)
    requires
        text_at(s, i, json_str(v)),
        0 <= k <= v.len(),
        j == i + 1 + esc_str(v.take(k)).len(),
    ensures
        k < v.len() ==> i < j && j < i + json_str(v).len() - 1 && s[j] == esc_char(v[k])[0],
        k < v.len() && esc_char(v[k]).len() == 2 ==> j + 1 < i + json_str(v).len() - 1 && s[j + 1]
            == esc_char(v[k])[1],
        k == v.len() ==> j == i + json_str(v).len() - 1 && s[j] == '"',
{
    if k < v.len() {
        lemma_esc_at(v, k);
        let pk = esc_str(v.take(k)).len() as int;
        assert(s.subrange(i, i + json_str(v).len())[1 + pk] == json_str(v)[1 + pk]);
        assert(json_str(v)[1 + pk] == esc_str(v)[pk]);
        assert(esc_str(v)[pk] == esc_char(v[k])[0]);
        if esc_char(v[k]).len() == 2 {
            assert(s.subrange(i, i + json_str(v).len())[2 + pk] == json_str(v)[2 + pk]);
            assert(json_str(v)[2 + pk] == esc_str(v)[1 + pk]);
            assert(esc_str(v)[1 + pk] == esc_char(v[k])[1]);
        }
    } else {
        assert(v.take(k) =~= v);
        let pe = esc_str(v).len() as int;
        assert(s.subrange(i, i + json_str(v).len())[1 + pe] == json_str(v)[1 + pe]);
    }
}

/// Reads a quoted string, undoing the escapes the writer makes.
/// Whenever a quoted, escaped string stands at `i`, the read succeeds
/// with exactly the string's characters.
#[verifier::rlimit(100)]
fn parse_qstr(s: &str, i: usize) -> (r: Option<(String, usize)>)
    ensures
        r matches Some(p) ==> i < p.1 <= s@.len(),
        forall|v: Seq<char>|
            text_at(s@, i as int, #[trigger] json_str(v)) ==> r is Some && (r->0).0@ == v && (r->0).1 as int
                == i + json_str(v).len(),
{
    let n = s.unicode_len();
    proof {
        assert forall|v: Seq<char>|
            text_at(s@, i as int, #[trigger] json_str(v)) implies i < n && s@[i as int] == '"' && i
            + json_str(v).len() <= n by {
            assert(s@.subrange(i as int, i + json_str(v).len())[0] == json_str(v)[0]);
        }
    }
    if i >= n || s.get_char(i) != '"' {
        return None;
    }
    let mut out = String::new();
    let mut j = i + 1;
    while j < n
        invariant
            i < j <= n,
            n == s@.len(),
            forall|v: Seq<char>|
                text_at(s@, i as int, #[trigger] json_str(v)) ==> out@.len() <= v.len() && out@ == v.take(
                    out@.len() as int,
                ) && j == i + 1 + esc_str(v.take(out@.len() as int)).len(),
        decreases n - j,
    {
        let ghost k = out@.len() as int;
        let c = s.get_char(j);
        if c == '"' {
            proof {
                assert forall|v: Seq<char>|
                    text_at(s@, i as int, #[trigger] json_str(v)) implies out@ == v && j + 1 == i + json_str(
                    v,
                ).len() by {
                    lemma_qstr_step(s@, i as int, j as int, k, v);
                    if k < v.len() {
                        assert(esc_char(v[k])[0] != '"');
                    }
                    assert(v.take(v.len() as int) =~= v);
                }
            }
            return Some((out, j + 1));
        }
        if c == '\\' {
            if j + 1 >= n {
                proof {
                    assert forall|v: Seq<char>| !text_at(s@, i as int, #[trigger] json_str(v)) by {
                        if text_at(s@, i as int, json_str(v)) {
                            lemma_qstr_step(s@, i as int, j as int, k, v);
                            if k < v.len() {
                                assert(esc_char(v[k])[0] == '\\' ==> esc_char(v[k]).len() == 2);
                            }
                        }
                    }
                }
                return None;
            }
            let e = s.get_char(j + 1);
            proof {
                assert forall|v: Seq<char>|
                    text_at(s@, i as int, #[trigger] json_str(v)) implies k < v.len() && esc_char(v[k])
                    == seq!['\\', e] by {
                    lemma_qstr_step(s@, i as int, j as int, k, v);
                    if k < v.len() {
                        assert(esc_char(v[k])[0] == '\\' ==> esc_char(v[k]).len() == 2);
                        assert(esc_char(v[k]) =~= seq!['\\', esc_char(v[k])[1]]);
                    }
                }
            }
            if e == '"' {
                push_char(&mut out, '"');
            } else if e == '\\' {
                push_char(&mut out, '\\');
            } else if e == 'n' {
                push_char(&mut out, '\n');
            } else if e == 'r' {
                push_char(&mut out, '\r');
            } else if e == 't' {
                push_char(&mut out, '\t');
            } else {
                proof {
                    assert forall|v: Seq<char>| !text_at(s@, i as int, #[trigger] json_str(v)) by {
                        if text_at(s@, i as int, json_str(v)) {
                            assert(esc_char(v[k]) == seq!['\\', e]);
                            assert(esc_char(v[k])[1] == e);
                        }
                    }
                }
                return None;
            }
            j += 2;
            proof {
                assert forall|v: Seq<char>|
                    text_at(s@, i as int, #[trigger] json_str(v)) implies out@.len() <= v.len() && out@
                    == v.take(out@.len() as int) && j == i + 1 + esc_str(
                    v.take(out@.len() as int),
                ).len() by {
                    assert(esc_char(v[k]) == seq!['\\', e]);
                    assert(v[k] == out@.last());
                    assert(out@ =~= v.take(k + 1));
                    lemma_esc_at(v, k);
                }
            }
        } else {
            push_char(&mut out, c);
            j += 1;
            proof {
                assert forall|v: Seq<char>|
                    text_at(s@, i as int, #[trigger] json_str(v)) implies out@.len() <= v.len() && out@
                    == v.take(out@.len() as int) && j == i + 1 + esc_str(
                    v.take(out@.len() as int),
                ).len() by {
                    lemma_qstr_step(s@, i as int, j - 1, k, v);
                    assert(k < v.len());
                    assert(esc_char(v[k])[0] == c);
                    assert(esc_char(v[k]) =~= seq![c]);
                    assert(out@ =~= v.take(k + 1));
                    lemma_esc_at(v, k);
                }
            }
        }
    }
    proof {
        assert forall|v: Seq<char>| !text_at(s@, i as int, #[trigger] json_str(v)) by {
            if text_at(s@, i as int, json_str(v)) {
                lemma_qstr_step(s@, i as int, j as int, out@.len() as int, v);
            }
        }
    }
    None
}

/// The premise under which a digit run must parse: the decimal digits of
/// `v` stand at `i`, with no further digit after them.
pub open spec fn num_at(s: Seq<char>, i: int, v: int) -> bool {
    &&& 0 <= v <= 0xFFFF_FFFF_FFFF_FFFF
    &&& text_at(s, i, dec_digits(v))
    &&& !digit_at(s, i + dec_digits(v).len())
}

/// Reads a run of decimal digits as an unsigned value. Whenever the
/// decimal digits of a value stand at `i`, bounded by a non-digit, the
/// read succeeds with exactly that value.
#[verifier::rlimit(90)]
fn parse_u128_at(s: &str, i: usize) -> (r: Option<(u128, usize)>)
    ensures
        r matches Some(p) ==> i < p.1 <= s@.len(),
        forall|v: int|
            num_at(s@, i as int, v) ==> r is Some && (r->0).0 as int == v && (r->0).1 as int == i
                + dec_digits(v).len(),
{
    let n = s.unicode_len();
    if i >= n {
        proof {
            assert forall|v: int| !num_at(s@, i as int, v) by {
                if num_at(s@, i as int, v) {
                    lemma_dec_digits_props(v);
                }
            }
        }
        return None;
    }
    let mut v: u128 = 0;
    let mut j = i;
    let mut stop = false;
    while j < n && !stop
        invariant
            i <= j <= n,
            n == s@.len(),
            v <= 0xFFFF_FFFF_FFFF_FFFF_FFFFu128,
            stop ==> j < n && !(48 <= s@[j as int] as u32 <= 57),
            forall|w: int|
                num_at(s@, i as int, w) ==> j - i <= dec_digits(w).len() && v as int == dec_val(
                    dec_digits(w).take(j - i),
                ),
        decreases n - j, 1int - if stop { 1int } else { 0int },
    {
        let d = s.get_char(j) as u32;
        proof {
            assert forall|w: int|
                num_at(s@, i as int, w) && j - i < dec_digits(w).len() implies s@[j as int]
                == dec_digits(w)[j - i] && 48 <= d <= 57 by {
                assert(s@.subrange(i as int, i + dec_digits(w).len())[j - i] == dec_digits(w)[j
                    - i]);
                lemma_dec_digits_props(w);
            }
        }
        if d < 48 || d > 57 {
            stop = true;
        } else {
            proof {
                assert forall|w: int| num_at(s@, i as int, w) implies v as int <= w by {
                    lemma_dec_digits_props(w);
                    lemma_dec_val_prefix(dec_digits(w), j - i);
                    lemma_dec_val_of(w);
                }
            }
            if v > 0xFFFF_FFFF_FFFF_FFFFu128 {
                proof {
                    assert forall|w: int| !num_at(s@, i as int, w) by {
                        if num_at(s@, i as int, w) {
                            assert(v as int <= w);
                        }
                    }
                }
                return None;
            }
            v = v * 10 + (d - 48) as u128;
            j += 1;
            proof {
                assert forall|w: int|
                    num_at(s@, i as int, w) implies j - i <= dec_digits(w).len() && v as int
                    == dec_val(dec_digits(w).take(j - i)) by {
                    if j - i > dec_digits(w).len() {
                        assert(!digit_at(s@, i + dec_digits(w).len()));
                    }
                    assert(dec_digits(w).take(j - i).drop_last() =~= dec_digits(w).take(j - i - 1));
                }
            }
        }
    }
    proof {
        assert forall|w: int|
            num_at(s@, i as int, w) implies j - i == dec_digits(w).len() && v as int == w by {
            lemma_dec_digits_props(w);
            if j - i < dec_digits(w).len() {
                assert(s@.subrange(i as int, i + dec_digits(w).len())[j - i] == dec_digits(w)[j
                    - i]);
            }
            assert(dec_digits(w).take(dec_digits(w).len() as int) =~= dec_digits(w));
            lemma_dec_val_of(w);
        }
    }
    if j == i {
        return None;
    }
    Some((v, j))
}

/// Reads a `usize` value. Whenever the decimal digits of a `usize`
/// stand at `i`, bounded by a non-digit, the read succeeds with exactly
/// that value.
fn parse_usize_at(s: &str, i: usize) -> (r: Option<(usize, usize)>)
    ensures
        r matches Some(p) ==> i < p.1 <= s@.len(),
        forall|v: int|
            num_at(s@, i as int, v) && v <= usize::MAX ==> r is Some && (r->0).0 as int == v && (
            r->0).1 as int == i + dec_digits(v).len(),
{
    match parse_u128_at(s, i) {
        Some((v, j)) => {
            if v <= usize::MAX as u128 {
                Some((v as usize, j))
            } else {
                None
            }
        },
        None => None,
    }
}

/// The premise under which a signed number must parse: the decimal form
/// of `v` stands at `i`, with no further digit after it.
pub open spec fn int_at(s: Seq<char>, i: int, v: int) -> bool {
    &&& -0x8000_0000_0000_0000 <= v <= 0x7FFF_FFFF_FFFF_FFFF
    &&& text_at(s, i, dec_int(v))
    &&& !digit_at(s, i + dec_int(v).len())
}

/// Reads an `i64` value, with an optional leading minus. Whenever the
/// decimal form of an `i64` stands at `i`, bounded by a non-digit, the
/// read succeeds with exactly that value.
fn parse_i64_at(s: &str, i: usize) -> (r: Option<(i64, usize)>)
    ensures
        r matches Some(p) ==> i < p.1 <= s@.len(),
        forall|v: int|
            int_at(s@, i as int, v) ==> r is Some && (r->0).0 as int == v && (r->0).1 as int == i
                + dec_int(v).len(),
{
    let n = s.unicode_len();
    proof {
        assert forall|v: int|
            int_at(s@, i as int, v) && v >= 0 implies i < n && 48 <= s@[i as int] as u32 <= 57 by {
            lemma_dec_digits_props(v);
            assert(s@.subrange(i as int, i + dec_digits(v).len())[0] == dec_digits(v)[0]);
        }
        assert forall|v: int| int_at(s@, i as int, v) && v < 0 implies i < n && s@[i as int]
            == '-' by {
            assert(s@.subrange(i as int, i + dec_int(v).len())[0] == dec_int(v)[0]);
        }
    }
    if i < n && s.get_char(i) == '-' {
        proof {
            assert forall|v: int| int_at(s@, i as int, v) implies v < 0 && num_at(
                s@,
                i as int + 1,
                -v,
            ) && -v <= 0x8000_0000_0000_0000 by {
                lemma_text_at_split(s@, i as int, seq!['-'], dec_digits(-v));
            }
        }
        match parse_u128_at(s, i + 1) {
            Some((v, j)) => {
                if v <= 0x8000_0000_0000_0000u128 {
                    Some(((-(v as i128)) as i64, j))
                } else {
                    None
                }
            },
            None => None,
        }
    } else {
        proof {
            assert forall|v: int| int_at(s@, i as int, v) implies v >= 0 && num_at(
                s@,
                i as int,
                v,
            ) by {}
        }
        match parse_u128_at(s, i) {
            Some((v, j)) => {
                if v <= i64::MAX as u128 {
                    Some((v as i64, j))
                } else {
                    None
                }
            },
            None => None,
        }
    }
}

/// Reads a JSON array of strings.
fn parse_str_arr_at(s: &str, i0: usize) -> (r: Option<(Vec<String>, usize)>)
    ensures
        r matches Some(p) ==> i0 < p.1 <= s@.len(),
{
    let n = s.unicode_len();
    if i0 >= n || s.get_char(i0) != '[' {
        return None;
    }
    let mut out: Vec<String> = Vec::new();
    let mut i = i0 + 1;
    if i < n && s.get_char(i) == ']' {
        return Some((out, i + 1));
    }
    while i < n
        invariant
            i0 < i <= n,
            n == s@.len(),
        decreases n - i,
    {
        match parse_qstr(s, i) {
            Some((v, j)) => {
                out.push(v);
                i = j;
            },
            None => {
                return None;
            },
        }
        if i < n && s.get_char(i) == ',' {
            i += 1;
        } else if i < n && s.get_char(i) == ']' {
            return Some((out, i + 1));
        } else {
            return None;
        }
    }
    None
}

/// Reads one knowledge-base record.
fn parse_kb_at(s: &str, i0: usize) -> (r: Option<(KnowledgeBase, usize)>)
    ensures
        r matches Some(p) ==> i0 < p.1 <= s@.len(),
{
    let i = match expect(s, i0, "{\"id\":") {
        Some(i) => i,
        None => {
            return None;
        },
    };
    let (id, i) = match parse_qstr(s, i) {
        Some(p) => p,
        None => {
            return None;
        },
    };
    let i = match expect(s, i, ",\"name\":") {
        Some(i) => i,
        None => {
            return None;
        },
    };
    let (name, i) = match parse_qstr(s, i) {
        Some(p) => p,
        None => {
            return None;
        },
    };
    let (description, i) = match expect(s, i, ",\"description\":") {
        Some(k) => match parse_qstr(s, k) {
            Some((d, j)) => (Some(d), j),
            None => {
                return None;
            },
        },
        None => (None, i),
    };
    let i = match expect(s, i, ",\"createdAt\":") {
        Some(i) => i,
        None => {
            return None;
        },
    };
    let (created_at, i) = match parse_i64_at(s, i) {
        Some(p) => p,
        None => {
            return None;
        },
    };
    let i = match expect(s, i, ",\"updatedAt\":") {
        Some(i) => i,
        None => {
            return None;
        },
    };
    let (updated_at, i) = match parse_i64_at(s, i) {
        Some(p) => p,
        None => {
            return None;
        },
    };
    let i = match expect(s, i, ",\"documentCount\":") {
        Some(i) => i,
        None => {
            return None;
        },
    };
    let (document_count, i) = match parse_usize_at(s, i) {
        Some(p) => p,
        None => {
            return None;
        },
    };
    let i = match expect(s, i, "}") {
        Some(i) => i,
        None => {
            return None;
        },
    };
    Some((KnowledgeBase { id, name, description, created_at, updated_at, document_count }, i))
}

/// Reads one heading entry.
fn parse_head_at(s: &str, i0: usize) -> (r: Option<(HeadingInfo, usize)>)
    ensures
        r matches Some(p) ==> i0 < p.1 <= s@.len(),
{
    let i = match expect(s, i0, "{\"level\":") {
        Some(i) => i,
        None => {
            return None;
        },
    };
    let (level, i) = match parse_usize_at(s, i) {
        Some(p) => p,
        None => {
            return None;
        },
    };
    if level > 255 {
        return None;
    }
    let i = match expect(s, i, ",\"text\":") {
        Some(i) => i,
        None => {
            return None;
        },
    };
    let (text, i) = match parse_qstr(s, i) {
        Some(p) => p,
        None => {
            return None;
        },
    };
    let i = match expect(s, i, ",\"line\":") {
        Some(i) => i,
        None => {
            return None;
        },
    };
    let (line, i) = match parse_usize_at(s, i) {
        Some(p) => p,
        None => {
            return None;
        },
    };
    let i = match expect(s, i, "}") {
        Some(i) => i,
        None => {
            return None;
        },
    };
    Some((HeadingInfo { level: level as u8, text, line }, i))
}

/// Reads a JSON array of heading entries.
fn parse_head_arr_at(s: &str, i0: usize) -> (r: Option<(Vec<HeadingInfo>, usize)>)
    ensures
        r matches Some(p) ==> i0 < p.1 <= s@.len(),
{
    let n = s.unicode_len();
    if i0 >= n || s.get_char(i0) != '[' {
        return None;
    }
    let mut out: Vec<HeadingInfo> = Vec::new();
    let mut i = i0 + 1;
    if i < n && s.get_char(i) == ']' {
        return Some((out, i + 1));
    }
    while i < n
        invariant
            i0 < i <= n,
            n == s@.len(),
        decreases n - i,
    {
        match parse_head_at(s, i) {
            Some((v, j)) => {
                out.push(v);
                i = j;
            },
            None => {
                return None;
            },
        }
        if i < n && s.get_char(i) == ',' {
            i += 1;
        } else if i < n && s.get_char(i) == ']' {
            return Some((out, i + 1));
        } else {
            return None;
        }
    }
    None
}

/// Reads one chunk.
fn parse_chunk_at(s: &str, i0: usize) -> (r: Option<(Chunk, usize)>)
    ensures
        r matches Some(p) ==> i0 < p.1 <= s@.len(),
{
    let i = match expect(s, i0, "{\"id\":") {
        Some(i) => i,
        None => {
            return None;
        },
    };
    let (id, i) = match parse_qstr(s, i) {
        Some(p) => p,
        None => {
            return None;
        },
    };
    let i = match expect(s, i, ",\"content\":") {
        Some(i) => i,
        None => {
            return None;
        },
    };
    let (content, i) = match parse_qstr(s, i) {
        Some(p) => p,
        None => {
            return None;
        },
    };
    let i = match expect(s, i, ",\"startLine\":") {
        Some(i) => i,
        None => {
            return None;
        },
    };
    let (start_line, i) = match parse_usize_at(s, i) {
        Some(p) => p,
        None => {
            return None;
        },
    };
    let i = match expect(s, i, ",\"endLine\":") {
        Some(i) => i,
        None => {
            return None;
        },
    };
    let (end_line, i) = match parse_usize_at(s, i) {
        Some(p) => p,
        None => {
            return None;
        },
    };
    let i = match expect(s, i, ",\"headings\":") {
        Some(i) => i,
        None => {
            return None;
        },
    };
    let (headings, i) = match parse_str_arr_at(s, i) {
        Some(p) => p,
        None => {
            return None;
        },
    };
    let i = match expect(s, i, "}") {
        Some(i) => i,
        None => {
            return None;
        },
    };
    Some((Chunk { id, content, start_line, end_line, headings }, i))
}

/// Reads a JSON array of chunks.
fn parse_chunk_arr_at(s: &str, i0: usize) -> (r: Option<(Vec<Chunk>, usize)>)
    ensures
        r matches Some(p) ==> i0 < p.1 <= s@.len(),
{
    let n = s.unicode_len();
    if i0 >= n || s.get_char(i0) != '[' {
        return None;
    }
    let mut out: Vec<Chunk> = Vec::new();
    let mut i = i0 + 1;
    if i < n && s.get_char(i) == ']' {
        return Some((out, i + 1));
    }
    while i < n
        invariant
            i0 < i <= n,
            n == s@.len(),
        decreases n - i,
    {
        match parse_chunk_at(s, i) {
            Some((v, j)) => {
                out.push(v);
                i = j;
            },
            None => {
                return None;
            },
        }
        if i < n && s.get_char(i) == ',' {
            i += 1;
        } else if i < n && s.get_char(i) == ']' {
            return Some((out, i + 1));
        } else {
            return None;
        }
    }
    None
}

/// Reads a document's metadata.
fn parse_meta_at(s: &str, i0: usize) -> (r: Option<(DocumentMetadata, usize)>)
    ensures
        r matches Some(p) ==> i0 < p.1 <= s@.len(),
{
    let i = match expect(s, i0, "{\"wordCount\":") {
        Some(i) => i,
        None => {
            return None;
        },
    };
    let (word_count, i) = match parse_usize_at(s, i) {
        Some(p) => p,
        None => {
            return None;
        },
    };
    let i = match expect(s, i, ",\"lineCount\":") {
        Some(i) => i,
        None => {
            return None;
        },
    };
    let (line_count, i) = match parse_usize_at(s, i) {
        Some(p) => p,
        None => {
            return None;
        },
    };
    let i = match expect(s, i, ",\"headings\":") {
        Some(i) => i,
        None => {
            return None;
        },
    };
    let (headings, i) = match parse_head_arr_at(s, i) {
        Some(p) => p,
        None => {
            return None;
        },
    };
    let (keywords, i) = match expect(s, i, ",\"keywords\":") {
        Some(k) => match parse_str_arr_at(s, k) {
            Some((ks, j)) => (Some(ks), j),
            None => {
                return None;
            },
        },
        None => (None, i),
    };
    let i = match expect(s, i, "}") {
        Some(i) => i,
        None => {
            return None;
        },
    };
    Some((DocumentMetadata { word_count, line_count, headings, keywords }, i))
}

/// Reads one document record.
fn parse_doc_at(s: &str, i0: usize) -> (r: Option<(Document, usize)>)
    ensures
        r matches Some(p) ==> i0 < p.1 <= s@.len(),
{
    let i = match expect(s, i0, "{\"id\":") {
        Some(i) => i,
        None => {
            return None;
        },
    };
    let (id, i) = match parse_qstr(s, i) {
        Some(p) => p,
        None => {
            return None;
        },
    };
    let i = match expect(s, i, ",\"kbId\":") {
        Some(i) => i,
        None => {
            return None;
        },
    };
    let (kb_id, i) = match parse_qstr(s, i) {
        Some(p) => p,
        None => {
            return None;
        },
    };
    let i = match expect(s, i, ",\"path\":") {
        Some(i) => i,
        None => {
            return None;
        },
    };
    let (path, i) = match parse_qstr(s, i) {
        Some(p) => p,
        None => {
            return None;
        },
    };
    let i = match expect(s, i, ",\"title\":") {
        Some(i) => i,
        None => {
            return None;
        },
    };
    let (title, i) = match parse_qstr(s, i) {
        Some(p) => p,
        None => {
            return None;
        },
    };
    let i = match expect(s, i, ",\"content\":") {
        Some(i) => i,
        None => {
            return None;
        },
    };
    let (content, i) = match parse_qstr(s, i) {
        Some(p) => p,
        None => {
            return None;
        },
    };
    let i = match expect(s, i, ",\"chunks\":") {
        Some(i) => i,
        None => {
            return None;
        },
    };
    let (chunks, i) = match parse_chunk_arr_at(s, i) {
        Some(p) => p,
        None => {
            return None;
        },
    };
    let i = match expect(s, i, ",\"metadata\":") {
        Some(i) => i,
        None => {
            return None;
        },
    };
    let (metadata, i) = match parse_meta_at(s, i) {
        Some(p) => p,
        None => {
            return None;
        },
    };
    let i = match expect(s, i, ",\"createdAt\":") {
        Some(i) => i,
        None => {
            return None;
        },
    };
    let (created_at, i) = match parse_i64_at(s, i) {
        Some(p) => p,
        None => {
            return None;
        },
    };
    let i = match expect(s, i, "}") {
        Some(i) => i,
        None => {
            return None;
        },
    };
    Some((Document { id, kb_id, path, title, content, chunks, metadata, created_at }, i))
}

/// Reads a JSON array of document records.
fn parse_doc_arr_at(s: &str, i0: usize) -> (r: Option<(Vec<Document>, usize)>)
    ensures
        r matches Some(p) ==> i0 < p.1 <= s@.len(),
{
    let n = s.unicode_len();
    if i0 >= n || s.get_char(i0) != '[' {
        return None;
    }
    let mut out: Vec<Document> = Vec::new();
    let mut i = i0 + 1;
    if i < n && s.get_char(i) == ']' {
        return Some((out, i + 1));
    }
    while i < n
        invariant
            i0 < i <= n,
            n == s@.len(),
        decreases n - i,
    {
        match parse_doc_at(s, i) {
            Some((v, j)) => {
                out.push(v);
                i = j;
            },
            None => {
                return None;
            },
        }
        if i < n && s.get_char(i) == ',' {
            i += 1;
        } else if i < n && s.get_char(i) == ']' {
            return Some((out, i + 1));
        } else {
            return None;
        }
    }
    None
}

/// Deserializes a store snapshot. A text is accepted only when it is
/// exactly the canonical encoding of the records returned, so whatever
/// loads is precisely what `encode_store` once wrote.
pub fn decode_store(s: &str) -> (r: Option<KnowledgeBaseService>)
    ensures
        r matches Some(srv) ==> s@ == enc_store(srv@),
{
    let n = s.unicode_len();
    let i = match expect(s, 0, "{\"knowledgeBases\":") {
        Some(i) => i,
        None => {
            return None;
        },
    };
    let (knowledge_bases, i) = match parse_kb_arr_at(s, i) {
        Some(p) => p,
        None => {
            return None;
        },
    };
    let i = match expect(s, i, ",\"documents\":") {
        Some(i) => i,
        None => {
            return None;
        },
    };
    let (documents, i) = match parse_doc_arr_at(s, i) {
        Some(p) => p,
        None => {
            return None;
        },
    };
    let i = match expect(s, i, "}") {
        Some(i) => i,
        None => {
            return None;
        },
    };
    if i != n {
        return None;
    }
    let srv = KnowledgeBaseService { knowledge_bases, documents };
    let again = encode_store(&srv);
    if str_eq(again.as_str(), s) {
        Some(srv)
    } else {
        None
    }
}

/// Reads a JSON array of knowledge-base records.
fn parse_kb_arr_at(s: &str, i0: usize) -> (r: Option<(Vec<KnowledgeBase>, usize)>)
    ensures
        r matches Some(p) ==> i0 < p.1 <= s@.len(),
{
    let n = s.unicode_len();
    if i0 >= n || s.get_char(i0) != '[' {
        return None;
    }
    let mut out: Vec<KnowledgeBase> = Vec::new();
    let mut i = i0 + 1;
    if i < n && s.get_char(i) == ']' {
        return Some((out, i + 1));
    }
    while i < n
        invariant
            i0 < i <= n,
            n == s@.len(),
        decreases n - i,
    {
        match parse_kb_at(s, i) {
            Some((v, j)) => {
                out.push(v);
                i = j;
            },
            None => {
                return None;
            },
        }
        if i < n && s.get_char(i) == ',' {
            i += 1;
        } else if i < n && s.get_char(i) == ']' {
            return Some((out, i + 1));
        } else {
            return None;
        }
    }
    None
}

} // verus!
