use maple_core::frecent::{FrecentEntry, SortPreference, CWD_PREFERENCE_BONUS, DAY, HOUR, WEEK};
use maple_core::projects::{SortedProjects, MAX_ENTRIES};

fn paths(p: &SortedProjects) -> Vec<&str> {
    p.entries.iter().map(|e| e.fpath.as_str()).collect()
}

#[test]
fn test_default_is_empty() {
    let p = SortedProjects::default();
    assert_eq!(p.max_entries, MAX_ENTRIES);
    assert_eq!(p.max_entries, 100);
    assert_eq!(p.sort_preference, SortPreference::Frecency);
    assert_eq!(p.len(), 0);
}

#[test]
fn test_sort_by_cwd() {
    let mut sorted_recent_files = SortedProjects::default();

    let entries = vec![
        "/usr/local/share/test1.txt",
        "/home/xlc/.vimrc",
        "/home/xlc/test.txt",
    ];

    for entry in entries.iter() {
        sorted_recent_files.upsert(entry.to_string());
    }

    sorted_recent_files.sort_by_cwd("/usr/local/share");

    assert_eq!(
        sorted_recent_files
            .entries
            .iter()
            .map(|entry| entry.fpath.as_str())
            .collect::<Vec<_>>(),
        vec![
            "/usr/local/share/test1.txt",
            "/home/xlc/test.txt",
            "/home/xlc/.vimrc",
        ]
    );
}

#[test]
fn test_sort_by_cwd_keeps_latest_visit_first_among_ties() {
    let mut p = SortedProjects::default();
    for entry in ["/usr/local/share/test1.txt", "/home/xlc/.vimrc", "/home/xlc/test.txt"].iter() {
        p.upsert_at(entry.to_string(), 1_000);
    }
    assert_eq!(
        paths(&p),
        vec!["/home/xlc/test.txt", "/home/xlc/.vimrc", "/usr/local/share/test1.txt"]
    );
    p.sort_by_cwd("/home/xlc");
    assert_eq!(
        paths(&p),
        vec!["/home/xlc/test.txt", "/home/xlc/.vimrc", "/usr/local/share/test1.txt"]
    );
    p.sort_by_cwd("/usr/local/share");
    assert_eq!(
        paths(&p),
        vec!["/usr/local/share/test1.txt", "/home/xlc/test.txt", "/home/xlc/.vimrc"]
    );
}

#[test]
fn test_upsert_refreshes_existing_entry() {
    let mut p = SortedProjects::default();
    p.upsert_at("/a".to_string(), 10);
    p.upsert_at("/b".to_string(), 20);
    p.upsert_at("/b".to_string(), 30);
    assert_eq!(p.len(), 2);
    assert_eq!(paths(&p), vec!["/b", "/a"]);
    let b = &p.entries[0];
    assert_eq!(b.visits, 2);
    assert_eq!(b.frecent_score, 8);
    assert_eq!(b.last_visit, 30);
    let a = &p.entries[1];
    assert_eq!(a.visits, 1);
    assert_eq!(a.frecent_score, 1);
    assert_eq!(a.last_visit, 10);
}

#[test]
fn test_upsert_sorts_by_score_and_truncates() {
    let mut p = SortedProjects::default();
    p.max_entries = 2;
    p.upsert_at("/a".to_string(), 0);
    p.upsert_at("/a".to_string(), 0);
    p.upsert_at("/b".to_string(), 0);
    assert_eq!(paths(&p), vec!["/a", "/b"]);
    // "/a" scores 8; "/c" ties with "/b" and, visited later, goes before it,
    // so "/b" falls off the end.
    p.upsert_at("/c".to_string(), 0);
    assert_eq!(paths(&p), vec!["/a", "/c"]);
    p.upsert_at("/b".to_string(), 0);
    assert_eq!(paths(&p), vec!["/a", "/b"]);
    // Equal scores of 8: the visited entry comes first.
    p.upsert_at("/b".to_string(), 0);
    assert_eq!(p.len(), 2);
    assert_eq!(paths(&p), vec!["/b", "/a"]);
    assert_eq!(p.entries[0].visits, 2);
    assert_eq!(p.entries[0].frecent_score, 8);
    p.upsert_at("/b".to_string(), 0);
    assert_eq!(paths(&p), vec!["/b", "/a"]);
    assert_eq!(p.entries[0].frecent_score, 12);
}

#[test]
fn test_upsert_uses_the_clock() {
    let mut p = SortedProjects::default();
    p.upsert("/x".to_string());
    assert_eq!(p.len(), 1);
    assert_eq!(p.entries[0].visits, 1);
    assert!(p.entries[0].last_visit > 1_600_000_000);
    p.upsert("/x".to_string());
    assert_eq!(p.len(), 1);
    assert_eq!(p.entries[0].visits, 2);
    assert_eq!(p.entries[0].frecent_score, 8);
}

#[test]
fn test_remove_invalid_entries_keeps_flagged_ones() {
    let mut p = SortedProjects::default();
    for (i, path) in ["/a", "/b", "/c", "/d"].iter().enumerate() {
        p.upsert_at(path.to_string(), i as i64);
    }
    assert_eq!(paths(&p), vec!["/d", "/c", "/b", "/a"]);
    let p = p.remove_invalid_entries(&vec![true, false, false, true]);
    assert_eq!(paths(&p), vec!["/d", "/a"]);
    assert_eq!(p.max_entries, 100);
    let p = p.remove_invalid_entries(&vec![false, false]);
    assert_eq!(p.len(), 0);
}

#[test]
fn test_frecent_entry_new_and_refresh() {
    let mut e = FrecentEntry::new_at("/p".to_string(), 500);
    assert_eq!((e.visits, e.frecent_score, e.last_visit), (1, 1, 500));
    e.refresh_at(700);
    assert_eq!((e.visits, e.frecent_score, e.last_visit), (2, 8, 700));
    assert_eq!(e.fpath, "/p");
    let now = FrecentEntry::new("/q".to_string());
    assert!(now.last_visit > 1_600_000_000);
    let mut r = FrecentEntry::new_at("/r".to_string(), 0);
    r.refresh_now();
    assert_eq!(r.visits, 2);
    assert!(r.last_visit > 1_600_000_000);
}

#[test]
fn test_update_frecent_decays_with_time() {
    let mut e = FrecentEntry::new_at("/p".to_string(), 0);
    e.visits = 8;
    e.update_frecent(HOUR - 1);
    assert_eq!(e.frecent_score, 32);
    e.update_frecent(HOUR);
    assert_eq!(e.frecent_score, 16);
    e.update_frecent(DAY);
    assert_eq!(e.frecent_score, 4);
    e.update_frecent(WEEK);
    assert_eq!(e.frecent_score, 2);
    e.update_frecent(-5);
    assert_eq!(e.frecent_score, 32);
    e.visits = u64::MAX;
    e.update_frecent(0);
    assert_eq!(e.frecent_score, u64::MAX);
}

#[test]
fn test_cwd_preferred_score_bonus() {
    let e = FrecentEntry::new_at("/home/u/proj".to_string(), 0);
    assert_eq!(e.cwd_preferred_score("/home/u"), 1 + CWD_PREFERENCE_BONUS);
    assert_eq!(e.cwd_preferred_score("/home/v"), 1);
    assert_eq!(e.cwd_preferred_score("/home/u/project"), 1);
    let mut big = FrecentEntry::new_at("/x".to_string(), 0);
    big.frecent_score = u64::MAX;
    assert_eq!(big.cwd_preferred_score("/"), u64::MAX);
}

#[test]
fn test_source_paths() {
    let mut p = SortedProjects::default();
    p.upsert_at("/a".to_string(), 0);
    p.upsert_at("/b".to_string(), 0);
    p.upsert_at("/b".to_string(), 0);
    assert_eq!(p.source_paths(), vec!["/b", "/a"]);
    assert!(SortedProjects::default().source_paths().is_empty());
}
