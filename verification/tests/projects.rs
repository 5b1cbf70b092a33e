use kbase::history::HistoryService;

#[test]
fn add_puts_most_recent_first() {
    let mut h = HistoryService::new();
    h.add_to_history("/one");
    h.add_to_history("/two");
    assert_eq!(h.projects, vec!["/two".to_string(), "/one".to_string()]);
}

#[test]
fn adding_again_moves_to_front() {
    let mut h = HistoryService::new();
    h.add_to_history("/one");
    h.add_to_history("/two");
    h.add_to_history("/one");
    assert_eq!(h.projects, vec!["/one".to_string(), "/two".to_string()]);
}

#[test]
fn history_is_capped_at_ten() {
    let mut h = HistoryService::new();
    for i in 0..12 {
        h.add_to_history(&format!("/p{}", i));
    }
    assert_eq!(h.projects.len(), 10);
    assert_eq!(h.projects[0], "/p11");
    assert_eq!(h.projects[9], "/p2");
}

#[test]
fn remove_drops_the_path() {
    let mut h = HistoryService::new();
    h.add_to_history("/one");
    h.add_to_history("/two");
    h.remove_from_history("/one");
    assert_eq!(h.projects, vec!["/two".to_string()]);
    h.remove_from_history("/missing");
    assert_eq!(h.projects, vec!["/two".to_string()]);
}

#[test]
fn clear_empties_the_history() {
    let mut h = HistoryService::new();
    h.add_to_history("/one");
    h.clear_history();
    assert!(h.projects.is_empty());
}
