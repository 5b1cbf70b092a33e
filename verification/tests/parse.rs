use kbase::store::KnowledgeBaseService;

#[test]
fn test_parse_heading() {
    let service = KnowledgeBaseService::new();

    assert_eq!(
        service.parse_heading("# Title"),
        Some((1, "Title".to_string()))
    );
    assert_eq!(
        service.parse_heading("## Section"),
        Some((2, "Section".to_string()))
    );
    assert_eq!(service.parse_heading("No heading"), None);
}

#[test]
fn parse_heading_rejects_too_deep() {
    let service = KnowledgeBaseService::new();
    assert_eq!(service.parse_heading("####### too deep"), None);
}

#[test]
fn parse_heading_rejects_empty_text() {
    let service = KnowledgeBaseService::new();
    assert_eq!(service.parse_heading("#"), None);
    assert_eq!(service.parse_heading("###   "), None);
}

#[test]
fn parse_heading_levels() {
    let service = KnowledgeBaseService::new();
    assert_eq!(service.parse_heading("### Three"), Some((3, "Three".to_string())));
    assert_eq!(
        service.parse_heading("###### Six deep"),
        Some((6, "Six deep".to_string()))
    );
}

#[test]
fn parse_heading_trims_whitespace() {
    let service = KnowledgeBaseService::new();
    assert_eq!(
        service.parse_heading("   ##   Padded title   "),
        Some((2, "Padded title".to_string()))
    );
}

#[test]
fn parse_heading_needs_leading_hash() {
    let service = KnowledgeBaseService::new();
    assert_eq!(service.parse_heading("text # not a heading"), None);
    assert_eq!(service.parse_heading(""), None);
}
