use findex::index_engine::TrieIndex;
use findex::index_sync::{
    apply_changes, catch_up, dedup_by_path, resume_position, start, IndexBuild, Startup, VolumeAction,
    VolumeEvent,
};
use findex::searcher::Searcher;
use findex::journal_state::UsnJournalState;
use findex::types::FileEntry;
use findex::usn_reader::FileChange;

fn entry(name: &str, path: &str) -> FileEntry {
    FileEntry {
        id: 0,
        name: name.to_string(),
        path: path.to_string(),
        parent_path: String::new(),
        size: 0,
        created: 0,
        modified: 0,
        accessed: 0,
        is_dir: false,
        is_hidden: false,
        is_readonly: false,
        extension: String::new(),
        volume: "C".to_string(),
    }
}

#[test]
fn applies_journal_changes() {
    let mut t = TrieIndex::new();
    t.insert(entry("old.txt", "old.txt"));
    t.insert(entry("keep.txt", "keep.txt"));
    t.insert(entry("old.txt", "old.txt"));
    let changes = vec![
        FileChange::Added(entry("new.txt", "C:\\new.txt")),
        FileChange::Deleted("old.txt".to_string()),
        FileChange::Modified(entry("keep.txt", "keep.txt")),
        FileChange::Renamed("gone".to_string(), "x".to_string()),
    ];
    let n = apply_changes(&mut t, &changes);
    assert_eq!(n, 4);
    assert_eq!(t.len(), 3);
    assert!(t.ids_with_path("old.txt").is_empty());
    assert_eq!(t.ids_with_path("C:\\new.txt"), vec![4]);
    assert_eq!(t.next_id(), 6);
}

#[test]
fn merges_by_path() {
    let es = vec![entry("a", "p1"), entry("b", "p2"), entry("c", "p1")];
    let out = dedup_by_path(es);
    assert_eq!(out.len(), 2);
    assert_eq!(out[0].name, "a");
    assert_eq!(out[1].name, "b");
}

#[test]
fn where_to_resume() {
    let mut s = UsnJournalState::new();
    s.update_volume("C", 100, 7);
    assert_eq!(resume_position(&s, "C", 150, 7), Some(100));
    assert_eq!(resume_position(&s, "C", 100, 7), None);
    assert_eq!(resume_position(&s, "C", 150, 8), None);
    assert_eq!(resume_position(&s, "D", 150, 7), None);
}

#[test]
fn build_prefers_the_journal_and_falls_back_to_walking() {
    let mut b = IndexBuild::new(UsnJournalState::new());
    assert_eq!(b.step(VolumeEvent::Found { letter: 'C', usn_available: true }), VolumeAction::Enumerate('C'));
    let a = b.step(VolumeEvent::Enumerated {
        letter: 'C',
        entries: vec![entry("a.txt", "C:\\a.txt"), entry("b.txt", "C:\\b.txt")],
        journal: Some((500, 7)),
    });
    assert_eq!(a, VolumeAction::Next);
    assert_eq!(b.step(VolumeEvent::Found { letter: 'D', usn_available: true }), VolumeAction::Enumerate('D'));
    assert_eq!(b.step(VolumeEvent::EnumerationFailed { letter: 'D' }), VolumeAction::Walk('D'));
    let walked = vec![entry("c.txt", "D:\\c.txt"), entry("a.txt", "C:\\a.txt")];
    assert_eq!(b.step(VolumeEvent::Walked { letter: 'D', entries: Some(walked) }), VolumeAction::Next);
    assert_eq!(b.step(VolumeEvent::Found { letter: 'E', usn_available: false }), VolumeAction::Walk('E'));
    assert_eq!(b.step(VolumeEvent::Walked { letter: 'E', entries: None }), VolumeAction::Next);
    assert_eq!(b.via_usn, vec!['C']);
    assert_eq!(b.via_walker, vec!['D']);
    assert_eq!(b.entries.len(), 4);
    let v = b.journal.get_volume("C").unwrap();
    assert_eq!((v.last_usn, v.usn_journal_id), (500, 7));
    let s = b.finish().unwrap();
    let all = s.index().all_entries();
    let paths: Vec<&str> = all.iter().map(|e| e.path.as_str()).collect();
    assert_eq!(paths, vec!["C:\\a.txt", "C:\\b.txt", "D:\\c.txt"]);
    let ids: Vec<i64> = all.iter().map(|e| e.id).collect();
    assert_eq!(ids, vec![1, 2, 3]);
}

#[test]
fn build_with_nothing_found_gives_no_index() {
    let mut b = IndexBuild::new(UsnJournalState::new());
    assert_eq!(b.step(VolumeEvent::Found { letter: 'C', usn_available: false }), VolumeAction::Walk('C'));
    b.step(VolumeEvent::Walked { letter: 'C', entries: Some(Vec::new()) });
    assert!(b.finish().is_none());
}

#[test]
fn start_loads_a_saved_index_or_builds() {
    let mut e = entry("a.txt", "C:\\a.txt");
    e.id = 4;
    match start(vec![e], UsnJournalState::new()) {
        Startup::Loaded { searcher, journal } => {
            assert_eq!(searcher.index().len(), 1);
            assert!(journal.volumes.is_empty());
        },
        Startup::Build(_) => panic!("expected the saved index"),
    }
    assert!(matches!(start(Vec::new(), UsnJournalState::new()), Startup::Build(b) if b.entries.is_empty()));
}

#[test]
fn catch_up_applies_changes_and_records_the_position() {
    let mut t = TrieIndex::new();
    t.insert(entry("old.txt", "C:\\old.txt"));
    let mut s = Searcher::new(t);
    let mut j = UsnJournalState::new();
    let changes = vec![FileChange::Deleted("C:\\old.txt".to_string()), FileChange::Added(entry("new.txt", "C:\\new.txt"))];
    assert_eq!(catch_up(&mut s, &mut j, "C", 900, 3, &changes), 2);
    let all = s.index().all_entries();
    assert_eq!(all.len(), 1);
    assert_eq!(all[0].path, "C:\\new.txt");
    let v = j.get_volume("C").unwrap();
    assert_eq!((v.last_usn, v.usn_journal_id), (900, 3));
}
