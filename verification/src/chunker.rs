//! The chunker: consumes a document's lines and produces the ordered
//! sequence of chunks, each annotated with the heading path in effect at
//! its first line, together with every heading found.
//!
//! The behaviour is specified as a fold over the lines. For each line, in
//! order: a heading line first flushes the open chunk (ending on the
//! previous line), records the heading, and rewrites the heading path to
//! a strict hierarchy; then the line joins the open buffer; then, when
//! the buffer has grown past `SPLIT_THRESHOLD` characters or the line
//! starts with `---`, the open chunk is flushed ending on this line.
//! A flush emits a chunk only when the buffer's trimmed content is
//! non-empty; blank stretches are silently dropped.

use vstd::prelude::*;
use crate::text::{
    is_space, lemma_all_space_trims_empty, lemma_trim_empty_all_space, spec_lines, split_lines,
    trim_spec, trim_str,
};
use crate::heading::{heading_of, parse_heading_line};
use crate::models::{Chunk, ChunkView, HeadData, HeadingInfo, clone_strings};
use crate::fresh::fresh_id;

verus! {

/// A buffer that has grown past this many characters is flushed at the
/// end of the line that crossed it.
pub const SPLIT_THRESHOLD: usize = 2000;

/// What one chunk must hold, apart from its freshly generated identifier:
/// its trimmed content, its inclusive zero-based line range, and the
/// heading path in effect at its first line.
pub struct ChunkData {
    pub content: Seq<char>,
    pub start_line: int,
    pub end_line: int,
    pub headings: Seq<Seq<char>>,
}

/// The scanning state carried from line to line.
pub struct ScanState {
    pub chunks: Seq<ChunkData>,
    pub heads: Seq<HeadData>,
    pub path: Seq<Seq<char>>,
    pub start: int,
    pub buf: Seq<char>,
}

/// Whether a line starts with the `---` separator.
pub open spec fn is_sep_line(l: Seq<char>) -> bool {
    l.len() >= 3 && l[0] == '-' && l[1] == '-' && l[2] == '-'
}

/// Flushing the open buffer: a chunk is emitted only when the trimmed
/// buffer is non-empty.
pub open spec fn flush_chunks(
    chunks: Seq<ChunkData>,
    buf: Seq<char>,
    start: int,
    end: int,
    path: Seq<Seq<char>>,
) -> Seq<ChunkData> {
    if trim_spec(buf).len() > 0 {
        chunks.push(
            ChunkData { content: trim_spec(buf), start_line: start, end_line: end, headings: path },
        )
    } else {
        chunks
    }
}

/// The heading path after a heading of the given level: ancestors from
/// level `level` on are dropped, and the new text appended, so that a
/// sibling heading replaces, not nests under, the previous one.
pub open spec fn path_after(path: Seq<Seq<char>>, level: int, text: Seq<char>) -> Seq<Seq<char>> {
    if level <= path.len() {
        path.subrange(0, level - 1).push(text)
    } else {
        path.push(text)
    }
}

/// The first part of a step: a heading line flushes the open chunk with
/// the previous line as its end, records the heading, rewrites the path,
/// and opens a fresh chunk at this line.
pub open spec fn heading_step(st: ScanState, line: Seq<char>, idx: int) -> ScanState {
    match heading_of(line) {
        Some(h) => ScanState {
            chunks: flush_chunks(
                st.chunks,
                st.buf,
                st.start,
                if idx > 0 { idx - 1 } else { 0 },
                st.path,
            ),
            heads: st.heads.push(HeadData { level: h.0, text: h.1, line: idx }),
            path: path_after(st.path, h.0, h.1),
            start: idx,
            buf: Seq::empty(),
        },
        None => st,
    }
}

/// The second part of a step: the line joins the buffer, and the buffer
/// is flushed, ending on this line, when it has grown past the threshold
/// or the line is a separator.
pub open spec fn buffer_step(st: ScanState, line: Seq<char>, idx: int) -> ScanState {
    let buf2 = st.buf + line + seq!['\n'];
    if buf2.len() > SPLIT_THRESHOLD || is_sep_line(line) {
        ScanState {
            chunks: flush_chunks(st.chunks, buf2, st.start, idx, st.path),
            heads: st.heads,
            path: st.path,
            start: idx + 1,
            buf: Seq::empty(),
        }
    } else {
        ScanState { chunks: st.chunks, heads: st.heads, path: st.path, start: st.start, buf: buf2 }
    }
}

/// One full step of the scan, for the line at index `idx`.
pub open spec fn scan_step(st: ScanState, line: Seq<char>, idx: int) -> ScanState {
    buffer_step(heading_step(st, line, idx), line, idx)
}

/// The scanning state after the first `i` lines.
pub open spec fn scan_lines(lines: Seq<Seq<char>>, i: int) -> ScanState
    decreases i,
{
    if i <= 0 {
        ScanState {
            chunks: Seq::empty(),
            heads: Seq::empty(),
            path: Seq::empty(),
            start: 0,
            buf: Seq::empty(),
        }
    } else {
        scan_step(scan_lines(lines, i - 1), lines[i - 1], i - 1)
    }
}

/// The chunks of a document, given its lines: the scan of every line,
/// then a final flush of whatever is still buffered, ending on the last
/// line.
pub open spec fn md_chunks(lines: Seq<Seq<char>>) -> Seq<ChunkData> {
    let st = scan_lines(lines, lines.len() as int);
    flush_chunks(
        st.chunks,
        st.buf,
        st.start,
        if lines.len() > 0 { lines.len() - 1 } else { 0 },
        st.path,
    )
}

/// The headings of a document, given its lines, in document order.
pub open spec fn md_heads(lines: Seq<Seq<char>>) -> Seq<HeadData> {
    scan_lines(lines, lines.len() as int).heads
}

/// Whether an emitted chunk holds what the scan asked for: the same
/// content, line range and heading path. The identifier is fresh and not
/// pinned down.
pub open spec fn chunk_matches(c: ChunkView, d: ChunkData) -> bool {
    &&& c.content == d.content
    &&& c.start_line == d.start_line
    &&& c.end_line == d.end_line
    &&& c.headings == d.headings
}

pub open spec fn chunks_match(cs: Seq<ChunkView>, ds: Seq<ChunkData>) -> bool {
    &&& cs.len() == ds.len()
    &&& forall|i: int| 0 <= i < ds.len() ==> chunk_matches(#[trigger] cs[i], ds[i])
}

/// Whether a line starts with the `---` separator.
pub fn starts_with_sep(line: &str) -> (r: bool)
    ensures
        r == is_sep_line(line@),
{
    let n = line.unicode_len();
    if n < 3 {
        return false;
    }
    line.get_char(0) == '-' && line.get_char(1) == '-' && line.get_char(2) == '-'
}

/// Scans the lines of a document into chunks and headings.
pub fn chunk_lines(lines: &Vec<String>) -> (r: (Vec<Chunk>, Vec<HeadingInfo>))
    ensures
        chunks_match(r.0.deep_view(), md_chunks(lines.deep_view())),
        r.1.deep_view() == md_heads(lines.deep_view()),
{
    let ghost ld = lines.deep_view();
    let mut chunks: Vec<Chunk> = Vec::new();
    let mut heads: Vec<HeadingInfo> = Vec::new();
    let mut path: Vec<String> = Vec::new();
    let mut start: usize = 0;
    let mut buf = String::new();
    let mut idx: usize = 0;
    while idx < lines.len()
        invariant
            0 <= idx <= lines.len(),
            ld == lines.deep_view(),
            ld.len() == lines@.len(),
            start <= idx,
            chunks_match(chunks.deep_view(), scan_lines(ld, idx as int).chunks),
            heads.deep_view() == scan_lines(ld, idx as int).heads,
            path.deep_view() == scan_lines(ld, idx as int).path,
            start as int == scan_lines(ld, idx as int).start,
            buf@ == scan_lines(ld, idx as int).buf,
        decreases lines.len() - idx,
    {
        let ghost st0 = scan_lines(ld, idx as int);
        let ghost st1 = heading_step(st0, ld[idx as int], idx as int);
        let ghost stepped = scan_step(st0, ld[idx as int], idx as int);
        let line = &lines[idx];
        proof {
            assert(ld[idx as int] == line@);
        }
        match parse_heading_line(line.as_str()) {
            Some((lvl, text)) => {
                let t = trim_str(buf.as_str());
                if t.as_str().unicode_len() > 0 {
                    let end = if idx > 0 { idx - 1 } else { 0 };
                    let hcopy = clone_strings(&path);
                    let ghost cdv = chunks.deep_view();
                    let c = Chunk {
                        id: fresh_id(),
                        content: t,
                        start_line: start,
                        end_line: end,
                        headings: hcopy,
                    };
                    let ghost cv = c@;
                    chunks.push(c);
                    proof {
                        assert(chunks.deep_view() =~= cdv.push(cv));
                        assert(st1.chunks == st0.chunks.push(
                            ChunkData {
                                content: trim_spec(st0.buf),
                                start_line: st0.start,
                                end_line: end as int,
                                headings: st0.path,
                            },
                        ));
                        assert forall|i: int| 0 <= i < st1.chunks.len() implies chunk_matches(
                            #[trigger] chunks.deep_view()[i],
                            st1.chunks[i],
                        ) by {
                            if i < cdv.len() {
                                assert(chunk_matches(cdv[i], st0.chunks[i]));
                            }
                        }
                    }
                } else {
                    proof {
                        assert(trim_spec(st0.buf).len() == 0);
                        assert(st1.chunks == st0.chunks);
                    }
                }
                let ghost hdv = heads.deep_view();
                heads.push(HeadingInfo { level: lvl, text: text.clone(), line: idx });
                proof {
                    assert(heads.deep_view() =~= hdv.push(
                        HeadData { level: lvl as int, text: text@, line: idx as int },
                    ));
                }
                let ghost pdv = path.deep_view();
                if (lvl as usize) <= path.len() {
                    path.truncate(lvl as usize - 1);
                    proof {
                        assert(path.deep_view() =~= pdv.subrange(0, lvl as int - 1));
                    }
                }
                path.push(text);
                proof {
                    assert(path.deep_view() =~= path_after(pdv, lvl as int, text@));
                }
                start = idx;
                buf = String::new();
            },
            None => {},
        }
        proof {
            assert(chunks_match(chunks.deep_view(), st1.chunks));
            assert(heads.deep_view() == st1.heads);
            assert(path.deep_view() == st1.path);
            assert(start as int == st1.start);
            assert(buf@ == st1.buf);
        }
        buf.append(line.as_str());
        buf.append("\n");
        proof {
            reveal_strlit("\n");
            assert("\n"@ =~= seq!['\n']);
            assert(buf@ == st1.buf + line@ + seq!['\n']);
        }
        let bl = buf.as_str().unicode_len();
        let sep = starts_with_sep(line.as_str());
        if bl > SPLIT_THRESHOLD || sep {
            let t = trim_str(buf.as_str());
            if t.as_str().unicode_len() > 0 {
                let hcopy = clone_strings(&path);
                let ghost cdv = chunks.deep_view();
                let c = Chunk {
                    id: fresh_id(),
                    content: t,
                    start_line: start,
                    end_line: idx,
                    headings: hcopy,
                };
                let ghost cv = c@;
                chunks.push(c);
                proof {
                    assert(chunks.deep_view() =~= cdv.push(cv));
                    assert forall|i: int| 0 <= i < stepped.chunks.len() implies chunk_matches(
                        #[trigger] chunks.deep_view()[i],
                        stepped.chunks[i],
                    ) by {
                        if i < cdv.len() {
                            assert(chunk_matches(cdv[i], st1.chunks[i]));
                        }
                    }
                }
            }
            start = idx + 1;
            buf = String::new();
        }
        proof {
            assert(scan_lines(ld, idx as int + 1) == stepped);
        }
        idx += 1;
    }
    let t = trim_str(buf.as_str());
    if t.as_str().unicode_len() > 0 {
        let end = if lines.len() > 0 { lines.len() - 1 } else { 0 };
        let ghost stn = scan_lines(ld, ld.len() as int);
        let ghost cdv = chunks.deep_view();
        let c = Chunk {
            id: fresh_id(),
            content: t,
            start_line: start,
            end_line: end,
            headings: path,
        };
        let ghost cv = c@;
        chunks.push(c);
        proof {
            assert(chunks.deep_view() =~= cdv.push(cv));
            assert forall|i: int| 0 <= i < md_chunks(ld).len() implies chunk_matches(
                #[trigger] chunks.deep_view()[i],
                md_chunks(ld)[i],
            ) by {
                if i < cdv.len() {
                    assert(chunk_matches(cdv[i], stn.chunks[i]));
                }
            }
        }
    }
    (chunks, heads)
}

/// The lines of a region joined back into buffered text: each line
/// followed by a newline.
pub open spec fn join_lines(ls: Seq<Seq<char>>) -> Seq<char>
    decreases ls.len(),
{
    if ls.len() == 0 {
        Seq::empty()
    } else {
        join_lines(ls.drop_last()) + ls.last() + seq!['\n']
    }
}

proof fn lemma_join_push(ls: Seq<Seq<char>>, x: Seq<char>)
    ensures
        join_lines(ls.push(x)) == join_lines(ls) + x + seq!['\n'],
{
    assert(ls.push(x).drop_last() =~= ls);
    assert(ls.push(x).last() == x);
}

/// When a joined region is nothing but whitespace, each of its lines
/// trims to nothing.
proof fn lemma_join_all_space(ls: Seq<Seq<char>>)
    requires
        forall|j: int| 0 <= j < join_lines(ls).len() ==> is_space(join_lines(ls)[j]),
    ensures
        forall|k: int| 0 <= k < ls.len() ==> trim_spec(ls[k]).len() == 0,
    decreases ls.len(),
{
    if ls.len() > 0 {
        let pre = join_lines(ls.drop_last());
        let last = ls.last();
        assert forall|j: int| 0 <= j < pre.len() implies is_space(pre[j]) by {
            assert(join_lines(ls)[j] == pre[j]);
        }
        lemma_join_all_space(ls.drop_last());
        assert forall|j: int| 0 <= j < last.len() implies is_space(last[j]) by {
            assert(join_lines(ls)[pre.len() + j] == last[j]);
        }
        lemma_all_space_trims_empty(last);
        assert forall|k: int| 0 <= k < ls.len() implies trim_spec(ls[k]).len() == 0 by {
            if k < ls.len() - 1 {
                assert(ls.drop_last()[k] == ls[k]);
            }
        }
    }
}

/// Whether some chunk's line range covers the line at index `l`.
pub open spec fn covered(cs: Seq<ChunkData>, l: int) -> bool {
    exists|i: int| 0 <= i < cs.len() && (#[trigger] cs[i]).start_line <= l <= cs[i].end_line
}

/// Whether the chunks lie in order below the bound `n`: each range is
/// well formed and ends before `n`, and consecutive ranges are disjoint,
/// the later one strictly after the earlier.
pub open spec fn chunks_ordered(cs: Seq<ChunkData>, n: int) -> bool {
    &&& forall|i: int|
        0 <= i < cs.len() ==> 0 <= (#[trigger] cs[i]).start_line <= cs[i].end_line < n
    &&& forall|i: int| 0 <= i < cs.len() - 1 ==> (#[trigger] cs[i]).end_line < cs[i + 1].start_line
}

/// Whether every chunk's content is non-empty.
pub open spec fn chunks_nonempty(cs: Seq<ChunkData>) -> bool {
    forall|i: int| 0 <= i < cs.len() ==> (#[trigger] cs[i]).content.len() > 0
}

/// Whether every line below the bound `n` that no chunk covers is blank.
pub open spec fn gaps_blank(cs: Seq<ChunkData>, lines: Seq<Seq<char>>, n: int) -> bool {
    forall|l: int| 0 <= l < n && !covered(cs, l) ==> trim_spec(#[trigger] lines[l]).len() == 0
}

/// The invariant the scan maintains: the open buffer holds exactly the
/// lines from `start` on, the emitted chunks lie in order before
/// `start`, each is non-empty, and every line they skip is blank.
spec fn scan_wf(st: ScanState, lines: Seq<Seq<char>>, n: int) -> bool {
    &&& 0 <= st.start <= n <= lines.len()
    &&& st.buf == join_lines(lines.subrange(st.start, n))
    &&& chunks_ordered(st.chunks, st.start)
    &&& chunks_nonempty(st.chunks)
    &&& gaps_blank(st.chunks, lines, st.start)
}

/// Flushing a buffered region keeps the chunks ordered, non-empty and
/// gap-blank, with the bound advanced past the region.
proof fn lemma_flush_wf(
    cs: Seq<ChunkData>,
    lines: Seq<Seq<char>>,
    path: Seq<Seq<char>>,
    s0: int,
    e1: int,
    end: int,
)
    requires
        0 <= s0 <= e1 <= lines.len(),
        chunks_ordered(cs, s0),
        chunks_nonempty(cs),
        gaps_blank(cs, lines, s0),
        trim_spec(join_lines(lines.subrange(s0, e1))).len() > 0 ==> end == e1 - 1,
    ensures
        ({
            let cs2 = flush_chunks(cs, join_lines(lines.subrange(s0, e1)), s0, end, path);
            chunks_ordered(cs2, e1) && chunks_nonempty(cs2) && gaps_blank(cs2, lines, e1)
        }),
{
    let buf = join_lines(lines.subrange(s0, e1));
    let cs2 = flush_chunks(cs, buf, s0, end, path);
    if trim_spec(buf).len() > 0 {
        if s0 == e1 {
            assert(lines.subrange(s0, e1) =~= Seq::<Seq<char>>::empty());
            assert(false);
        }
        let c = ChunkData { content: trim_spec(buf), start_line: s0, end_line: end, headings: path };
        assert(cs2 == cs.push(c));
        assert forall|i: int|
            0 <= i < cs2.len() implies 0 <= (#[trigger] cs2[i]).start_line <= cs2[i].end_line
            < e1 by {
            if i < cs.len() {
                assert(cs2[i] == cs[i]);
            }
        }
        assert forall|i: int|
            0 <= i < cs2.len() - 1 implies (#[trigger] cs2[i]).end_line < cs2[i + 1].start_line by {
            assert(cs2[i] == cs[i]);
            if i < cs.len() - 1 {
                assert(cs2[i + 1] == cs[i + 1]);
            } else {
                assert(cs2[i + 1] == c);
            }
        }
        assert forall|i: int| 0 <= i < cs2.len() implies (#[trigger] cs2[i]).content.len() > 0 by {
            if i < cs.len() {
                assert(cs2[i] == cs[i]);
            }
        }
        assert forall|l: int| 0 <= l < e1 && !covered(cs2, l) implies trim_spec(
            #[trigger] lines[l],
        ).len() == 0 by {
            if l < s0 {
                if covered(cs, l) {
                    let i = choose|i: int|
                        0 <= i < cs.len() && (#[trigger] cs[i]).start_line <= l <= cs[i].end_line;
                    assert(cs2[i] == cs[i]);
                    assert(covered(cs2, l));
                }
            } else {
                assert(cs2[cs.len() as int] == c);
                assert(covered(cs2, l));
            }
        }
    } else {
        lemma_trim_empty_all_space(buf);
        lemma_join_all_space(lines.subrange(s0, e1));
        assert(cs2 == cs);
        assert forall|l: int| 0 <= l < e1 && !covered(cs2, l) implies trim_spec(
            #[trigger] lines[l],
        ).len() == 0 by {
            if l >= s0 {
                assert(lines.subrange(s0, e1)[l - s0] == lines[l]);
            }
        }
    }
}

/// The scan keeps its invariant from line to line.
proof fn lemma_scan_wf(lines: Seq<Seq<char>>, i: int)
    requires
        0 <= i <= lines.len(),
    ensures
        scan_wf(scan_lines(lines, i), lines, i),
    decreases i,
{
    if i == 0 {
        let st = scan_lines(lines, 0);
        assert(lines.subrange(0, 0) =~= Seq::<Seq<char>>::empty());
        assert(st.buf == join_lines(lines.subrange(0, 0)));
    } else {
        lemma_scan_wf(lines, i - 1);
        let st = scan_lines(lines, i - 1);
        let idx = i - 1;
        let line = lines[idx];
        let st1 = heading_step(st, line, idx);
        let st2 = buffer_step(st1, line, idx);
        assert(scan_lines(lines, i) == st2);
        // After the heading part, the state is well formed at `idx` with
        // an empty or unchanged buffer.
        match heading_of(line) {
            Some(h) => {
                let hend = if idx > 0 { idx - 1 } else { 0 };
                if trim_spec(st.buf).len() > 0 {
                    if st.start == idx {
                        assert(lines.subrange(idx, idx) =~= Seq::<Seq<char>>::empty());
                        assert(false);
                    }
                }
                lemma_flush_wf(st.chunks, lines, st.path, st.start, idx, hend);
                assert(lines.subrange(idx, idx) =~= Seq::<Seq<char>>::empty());
                assert(st1.buf == join_lines(lines.subrange(st1.start, idx)));
            },
            None => {},
        }
        assert(0 <= st1.start <= idx);
        assert(st1.buf == join_lines(lines.subrange(st1.start, idx)));
        assert(chunks_ordered(st1.chunks, st1.start));
        assert(chunks_nonempty(st1.chunks));
        assert(gaps_blank(st1.chunks, lines, st1.start));
        // The buffer part: the line joins the buffer; a flush advances
        // the bound past this line.
        let buf2 = st1.buf + line + seq!['\n'];
        lemma_join_push(lines.subrange(st1.start, idx), line);
        assert(lines.subrange(st1.start, idx).push(line) =~= lines.subrange(st1.start, idx + 1));
        assert(buf2 == join_lines(lines.subrange(st1.start, idx + 1)));
        if buf2.len() > SPLIT_THRESHOLD || is_sep_line(line) {
            lemma_flush_wf(st1.chunks, lines, st1.path, st1.start, idx + 1, idx);
            assert(lines.subrange(idx + 1, idx + 1) =~= Seq::<Seq<char>>::empty());
        } else {
            assert forall|l: int| 0 <= l < st2.start && !covered(st2.chunks, l) implies trim_spec(
                #[trigger] lines[l],
            ).len() == 0 by {}
        }
    }
}

/// The chunk-coverage law: for any document, the emitted chunks carry
/// well-formed line ranges in increasing, pairwise disjoint order within
/// the document; every chunk's content is non-empty; and every line
/// that no chunk covers is blank.
pub proof fn lemma_chunk_coverage(lines: Seq<Seq<char>>)
    ensures
        chunks_ordered(md_chunks(lines), lines.len() as int),
        chunks_nonempty(md_chunks(lines)),
        gaps_blank(md_chunks(lines), lines, lines.len() as int),
{
    let n = lines.len() as int;
    lemma_scan_wf(lines, n);
    let st = scan_lines(lines, n);
    let fend = if lines.len() > 0 { n - 1 } else { 0 };
    if trim_spec(st.buf).len() > 0 {
        if st.start == n {
            assert(lines.subrange(n, n) =~= Seq::<Seq<char>>::empty());
            assert(false);
        }
    }
    lemma_flush_wf(st.chunks, lines, st.path, st.start, n, fend);
    assert(md_chunks(lines) == flush_chunks(
        st.chunks,
        join_lines(lines.subrange(st.start, n)),
        st.start,
        fend,
        st.path,
    ));
}

/// Splits a document into chunks and headings, as the scan specifies.
pub fn parse_markdown_text(content: &str) -> (r: (Vec<Chunk>, Vec<HeadingInfo>))
    ensures
        chunks_match(r.0.deep_view(), md_chunks(spec_lines(content@))),
        r.1.deep_view() == md_heads(spec_lines(content@)),
{
    let lines = split_lines(content);
    chunk_lines(&lines)
}

} // verus!
