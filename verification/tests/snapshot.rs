use kbase::codec::{decode_store, encode_store};
use kbase::store::KnowledgeBaseService;

#[test]
fn store_round_trips_through_its_snapshot() {
    let mut srv = KnowledgeBaseService::new();
    let kb = srv.create_knowledge_base(
        "Notes".to_string(),
        Some("desc with \"quotes\"\nand a newline".to_string()),
    );
    srv.create_knowledge_base("Second".to_string(), None);
    srv.import_document(&kb.id, "/tmp/a.md", "# A\ntext\n---\nmore".to_string());
    srv.import_document(&kb.id, "/tmp/b.md", "plain \\ backslash\ttab".to_string());

    let text = encode_store(&srv);
    let back = decode_store(&text).expect("the canonical snapshot must load");
    assert_eq!(back.knowledge_bases, srv.knowledge_bases);
    assert_eq!(back.documents, srv.documents);

    // saving the reloaded store writes the identical text again
    assert_eq!(encode_store(&back), text);
}

#[test]
fn empty_store_round_trips() {
    let srv = KnowledgeBaseService::new();
    let text = encode_store(&srv);
    assert_eq!(text, "{\"knowledgeBases\":[],\"documents\":[]}");
    let back = decode_store(&text).unwrap();
    assert!(back.knowledge_bases.is_empty());
    assert!(back.documents.is_empty());
}

#[test]
fn negative_timestamps_round_trip() {
    let mut srv = KnowledgeBaseService::new();
    srv.create_knowledge_base("old".to_string(), None);
    // force a pre-epoch timestamp into the record and round trip it
    srv.knowledge_bases[0].created_at = -1234;
    srv.knowledge_bases[0].updated_at = -1;
    let text = encode_store(&srv);
    let back = decode_store(&text).unwrap();
    assert_eq!(back.knowledge_bases[0].created_at, -1234);
    assert_eq!(back.knowledge_bases[0].updated_at, -1);
}

#[test]
fn only_the_canonical_text_is_accepted() {
    // semantically equal JSON in another shape is refused: the decoder
    // accepts exactly what the encoder writes
    assert!(decode_store("{\"documents\":[],\"knowledgeBases\":[]}").is_none());
    assert!(decode_store("{ \"knowledgeBases\": [], \"documents\": [] }").is_none());
}

#[test]
fn corrupt_snapshot_is_rejected() {
    assert!(decode_store("").is_none());
    assert!(decode_store("not json").is_none());
    assert!(decode_store("{\"knowledgeBases\":[],\"documents\":[]").is_none());
    assert!(decode_store("{\"knowledgeBases\":[],\"documents\":[]} ").is_none());
}
