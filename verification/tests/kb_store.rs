use kbase::store::KnowledgeBaseService;

#[test]
fn create_and_get_knowledge_base() {
    let mut srv = KnowledgeBaseService::new();
    let kb = srv.create_knowledge_base("Notes".to_string(), Some("my notes".to_string()));
    assert_eq!(kb.name, "Notes");
    assert_eq!(kb.description, Some("my notes".to_string()));
    assert_eq!(kb.document_count, 0);
    assert_eq!(kb.created_at, kb.updated_at);
    assert_eq!(kb.id.len(), 36);

    let found = srv.get_knowledge_base(&kb.id).unwrap();
    assert_eq!(found, kb);
    assert_eq!(srv.get_knowledge_base("no-such-id"), None);

    let all = srv.list_knowledge_bases();
    assert_eq!(all.len(), 1);
    assert_eq!(all[0], kb);
}

#[test]
fn list_keeps_insertion_order() {
    let mut srv = KnowledgeBaseService::new();
    let a = srv.create_knowledge_base("a".to_string(), None);
    let b = srv.create_knowledge_base("b".to_string(), None);
    let c = srv.create_knowledge_base("c".to_string(), None);
    let all = srv.list_knowledge_bases();
    assert_eq!(
        all.iter().map(|k| k.id.clone()).collect::<Vec<_>>(),
        vec![a.id, b.id, c.id]
    );
}

#[test]
fn import_document_builds_metadata_and_title() {
    let mut srv = KnowledgeBaseService::new();
    let kb = srv.create_knowledge_base("kb".to_string(), None);
    let doc = srv.import_document(
        &kb.id,
        "/tmp/guide.md",
        "# Guide\nhello world".to_string(),
    );

    assert_eq!(doc.kb_id, kb.id);
    assert_eq!(doc.path, "/tmp/guide.md");
    assert_eq!(doc.title, "Guide");
    assert_eq!(doc.content, "# Guide\nhello world");
    assert_eq!(doc.metadata.line_count, 2);
    // non-whitespace characters: "#Guidehelloworld"
    assert_eq!(doc.metadata.word_count, 16);
    assert_eq!(doc.metadata.headings.len(), 1);
    assert_eq!(doc.metadata.headings[0].text, "Guide");
    assert_eq!(doc.metadata.keywords, None);
    assert_eq!(doc.id.len(), 36);

    let docs = srv.get_documents(&kb.id);
    assert_eq!(docs.len(), 1);
    assert_eq!(docs[0], doc);
}

#[test]
fn title_falls_back_to_file_stem() {
    let mut srv = KnowledgeBaseService::new();
    let kb = srv.create_knowledge_base("kb".to_string(), None);
    let doc = srv.import_document(&kb.id, "/home/me/notes.txt", "plain text".to_string());
    assert_eq!(doc.title, "notes");

    let doc2 = srv.import_document(&kb.id, "", "plain text".to_string());
    assert_eq!(doc2.title, "Untitled");

    let doc3 = srv.import_document(&kb.id, "archive.tar.gz", "x".to_string());
    assert_eq!(doc3.title, "archive.tar");
}

#[test]
fn import_updates_document_count() {
    let mut srv = KnowledgeBaseService::new();
    let kb = srv.create_knowledge_base("kb".to_string(), None);
    srv.import_document(&kb.id, "/a.md", "one".to_string());
    srv.import_document(&kb.id, "/b.md", "two".to_string());
    assert_eq!(srv.get_knowledge_base(&kb.id).unwrap().document_count, 2);
}

#[test]
fn counts_stay_consistent_over_imports_and_deletes() {
    let mut srv = KnowledgeBaseService::new();
    let kb1 = srv.create_knowledge_base("one".to_string(), None);
    let kb2 = srv.create_knowledge_base("two".to_string(), None);

    let d1 = srv.import_document(&kb1.id, "/a.md", "a".to_string());
    srv.import_document(&kb1.id, "/b.md", "b".to_string());
    srv.import_document(&kb2.id, "/c.md", "c".to_string());
    srv.delete_document(&d1.id);
    srv.import_document(&kb2.id, "/d.md", "d".to_string());

    for kb in srv.list_knowledge_bases() {
        assert_eq!(
            srv.get_knowledge_base(&kb.id).unwrap().document_count,
            srv.get_documents(&kb.id).len()
        );
    }
    assert_eq!(srv.get_knowledge_base(&kb1.id).unwrap().document_count, 1);
    assert_eq!(srv.get_knowledge_base(&kb2.id).unwrap().document_count, 2);
}

#[test]
fn delete_knowledge_base_cascades() {
    let mut srv = KnowledgeBaseService::new();
    let kb = srv.create_knowledge_base("kb".to_string(), None);
    let other = srv.create_knowledge_base("other".to_string(), None);
    srv.import_document(&kb.id, "/a.md", "a".to_string());
    srv.import_document(&kb.id, "/b.md", "b".to_string());
    srv.import_document(&other.id, "/c.md", "c".to_string());

    srv.delete_knowledge_base(&kb.id);

    assert!(srv.get_documents(&kb.id).is_empty());
    assert_eq!(srv.get_knowledge_base(&kb.id), None);
    assert_eq!(srv.list_knowledge_bases().len(), 1);
    assert_eq!(srv.get_documents(&other.id).len(), 1);
}

#[test]
fn deletes_of_unknown_ids_are_no_ops() {
    let mut srv = KnowledgeBaseService::new();
    let kb = srv.create_knowledge_base("kb".to_string(), None);
    srv.import_document(&kb.id, "/a.md", "a".to_string());

    srv.delete_knowledge_base("missing");
    srv.delete_document("missing");

    assert_eq!(srv.list_knowledge_bases().len(), 1);
    assert_eq!(srv.get_documents(&kb.id).len(), 1);
}

#[test]
fn delete_document_removes_and_recounts() {
    let mut srv = KnowledgeBaseService::new();
    let kb = srv.create_knowledge_base("kb".to_string(), None);
    let d1 = srv.import_document(&kb.id, "/a.md", "a".to_string());
    let d2 = srv.import_document(&kb.id, "/b.md", "b".to_string());

    srv.delete_document(&d1.id);

    let docs = srv.get_documents(&kb.id);
    assert_eq!(docs.len(), 1);
    assert_eq!(docs[0].id, d2.id);
    assert_eq!(srv.get_knowledge_base(&kb.id).unwrap().document_count, 1);
}

#[test]
fn import_with_unknown_kb_still_stores() {
    let mut srv = KnowledgeBaseService::new();
    let doc = srv.import_document("nowhere", "/a.md", "a".to_string());
    assert_eq!(doc.kb_id, "nowhere");
    assert_eq!(srv.get_documents("nowhere").len(), 1);
    assert!(srv.list_knowledge_bases().is_empty());
}
