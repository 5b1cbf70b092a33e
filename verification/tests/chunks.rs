use kbase::store::KnowledgeBaseService;

#[test]
fn heading_paths_replace_siblings() {
    let service = KnowledgeBaseService::new();
    let (chunks, heads) = service.parse_markdown("# A\n## B\ntext\n## C\ntext");

    assert_eq!(heads.len(), 3);
    assert_eq!(heads[0].level, 1);
    assert_eq!(heads[0].text, "A");
    assert_eq!(heads[0].line, 0);
    assert_eq!(heads[1].level, 2);
    assert_eq!(heads[1].text, "B");
    assert_eq!(heads[1].line, 1);
    assert_eq!(heads[2].level, 2);
    assert_eq!(heads[2].text, "C");
    assert_eq!(heads[2].line, 3);

    assert_eq!(chunks.len(), 3);
    assert_eq!(chunks[0].content, "# A");
    assert_eq!(chunks[0].headings, vec!["A".to_string()]);
    assert_eq!(chunks[1].content, "## B\ntext");
    assert_eq!(chunks[1].headings, vec!["A".to_string(), "B".to_string()]);
    assert_eq!(chunks[2].content, "## C\ntext");
    assert_eq!(chunks[2].headings, vec!["A".to_string(), "C".to_string()]);
}

#[test]
fn size_threshold_splits_at_line_end() {
    let service = KnowledgeBaseService::new();
    let long_line = "x".repeat(3000);
    let (chunks, heads) = service.parse_markdown(&long_line);

    assert!(heads.is_empty());
    assert_eq!(chunks.len(), 1);
    assert_eq!(chunks[0].start_line, 0);
    assert_eq!(chunks[0].end_line, 0);
    assert_eq!(chunks[0].content, long_line);
    assert!(chunks[0].headings.is_empty());
}

#[test]
fn separator_splits_into_two_chunks() {
    let service = KnowledgeBaseService::new();
    let (chunks, heads) = service.parse_markdown("a\n---\nb");

    assert!(heads.is_empty());
    assert_eq!(chunks.len(), 2);
    assert_eq!(chunks[0].content, "a\n---");
    assert_eq!(chunks[0].start_line, 0);
    assert_eq!(chunks[0].end_line, 1);
    assert_eq!(chunks[1].content, "b");
    assert_eq!(chunks[1].start_line, 2);
    assert_eq!(chunks[1].end_line, 2);
    assert!(!chunks[1].content.contains("---"));
}

#[test]
fn short_document_is_one_chunk() {
    let service = KnowledgeBaseService::new();
    let (chunks, heads) = service.parse_markdown("just a line\nand another");
    assert!(heads.is_empty());
    assert_eq!(chunks.len(), 1);
    assert_eq!(chunks[0].start_line, 0);
    assert_eq!(chunks[0].end_line, 1);
    assert_eq!(chunks[0].content, "just a line\nand another");
    assert!(chunks[0].headings.is_empty());
}

#[test]
fn empty_document_has_no_chunks() {
    let service = KnowledgeBaseService::new();
    let (chunks, heads) = service.parse_markdown("");
    assert!(chunks.is_empty());
    assert!(heads.is_empty());
}

#[test]
fn blank_document_has_no_chunks() {
    let service = KnowledgeBaseService::new();
    let (chunks, heads) = service.parse_markdown("   \n\t\n  ");
    assert!(chunks.is_empty());
    assert!(heads.is_empty());
}

#[test]
fn chunk_ranges_cover_document_in_order() {
    let service = KnowledgeBaseService::new();
    let text = "# One\nalpha\n---\nbeta\n\n## Two\ngamma";
    let (chunks, _) = service.parse_markdown(text);
    let line_count = text.lines().count();

    let mut prev_end: Option<usize> = None;
    for c in &chunks {
        assert!(!c.content.trim().is_empty());
        assert!(c.start_line <= c.end_line);
        assert!(c.end_line < line_count);
        if let Some(p) = prev_end {
            assert!(p < c.start_line);
        }
        prev_end = Some(c.end_line);
    }
    // every line outside all chunk ranges is blank
    for (l, line) in text.lines().enumerate() {
        let covered = chunks.iter().any(|c| c.start_line <= l && l <= c.end_line);
        if !covered {
            assert!(line.trim().is_empty());
        }
    }
}

#[test]
fn deep_heading_jump_keeps_short_path() {
    let service = KnowledgeBaseService::new();
    let (chunks, _) = service.parse_markdown("# A\n### C\ntext");
    // a level-3 heading under a single level-1 ancestor appends, leaving
    // a two-entry path
    let last = chunks.last().unwrap();
    assert_eq!(last.headings, vec!["A".to_string(), "C".to_string()]);
}
