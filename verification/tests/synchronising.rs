use labworks::listing::{ftp_listing_entry, ftp_remote_path, listing_mentions, ListingEntry};
use labworks::sync::{
    can_synchronise, collect_listing, folder_action, ftp_action, last_listed_time, FileHistory, FileInfo,
    FileTracker, FolderAction, FtpAction, Source,
};

fn info(t: &FileTracker, rel: &str) -> Option<FileInfo> {
    t.get(&String::from(rel))
}

fn listing(items: &[(&str, Option<i128>)]) -> Vec<(String, Option<i128>)> {
    items.iter().map(|(n, t)| (String::from(*n), *t)).collect()
}

#[test]
fn newest_version_wins() {
    let mut t = FileTracker::new();
    t.observe(String::from("a.txt"), 10, Source::Folder(0));
    t.observe(String::from("a.txt"), 5, Source::Folder(1));
    assert_eq!(info(&t, "a.txt"), Some(FileInfo { source: Source::Folder(0), modified: 10, delete: false }));
    t.observe(String::from("a.txt"), 20, Source::Ftp(0));
    assert_eq!(info(&t, "a.txt"), Some(FileInfo { source: Source::Ftp(0), modified: 20, delete: false }));
    t.observe(String::from("a.txt"), 20, Source::Folder(1));
    assert_eq!(info(&t, "a.txt").unwrap().source, Source::Ftp(0));
    assert_eq!(t.len(), 1);
}

#[test]
fn deleted_paths_stay_deleted() {
    let mut t = FileTracker::new();
    t.observe(String::from("x"), 1, Source::Folder(0));
    t.mark_deleted(String::from("x"), Source::Folder(0), 99);
    t.observe(String::from("x"), 50, Source::Folder(1));
    assert_eq!(info(&t, "x"), Some(FileInfo { source: Source::Folder(0), modified: 1, delete: true }));
    t.mark_deleted(String::from("y"), Source::Ftp(2), 7);
    assert_eq!(info(&t, "y"), Some(FileInfo { source: Source::Ftp(2), modified: 7, delete: true }));
    assert_eq!(t.len(), 2);
}

#[test]
fn scans_detect_a_vanished_file() {
    let mut t = FileTracker::new();
    let mut h = FileHistory::new();
    let dir = String::from("/data");
    collect_listing(&mut t, &mut h, &dir, Source::Folder(0), &listing(&[("a", Some(1)), ("b", Some(2))]), 100);
    assert_eq!(t.len(), 2);
    let w = h.get(&dir).unwrap();
    assert_eq!(w.previous, vec![String::from("a"), String::from("b")]);
    assert_eq!(w.current, w.previous);
    collect_listing(&mut t, &mut h, &dir, Source::Folder(0), &listing(&[("b", Some(2))]), 200);
    assert_eq!(info(&t, "a"), Some(FileInfo { source: Source::Folder(0), modified: 1, delete: true }));
    assert!(!info(&t, "b").unwrap().delete);
    assert_eq!(h.get(&dir).unwrap().previous, vec![String::from("b")]);
}

#[test]
fn only_the_first_vanished_file_is_noticed_per_scan() {
    let mut t = FileTracker::new();
    let mut h = FileHistory::new();
    let dir = String::from("d");
    collect_listing(&mut t, &mut h, &dir, Source::Folder(0), &listing(&[("a", Some(1)), ("b", Some(1)), ("c", Some(1))]), 0);
    collect_listing(&mut t, &mut h, &dir, Source::Folder(0), &listing(&[("c", Some(1))]), 5);
    assert!(info(&t, "a").unwrap().delete);
    assert!(!info(&t, "b").unwrap().delete);
}

#[test]
fn vanished_names_leave_every_current_list() {
    let mut t = FileTracker::new();
    let mut h = FileHistory::new();
    let d1 = String::from("one");
    let d2 = String::from("two");
    collect_listing(&mut t, &mut h, &d1, Source::Folder(0), &listing(&[("f", Some(3))]), 0);
    collect_listing(&mut t, &mut h, &d2, Source::Folder(1), &listing(&[("f", Some(3)), ("g", Some(4))]), 0);
    collect_listing(&mut t, &mut h, &d1, Source::Folder(0), &listing(&[]), 9);
    assert!(info(&t, "f").unwrap().delete);
    assert_eq!(h.get(&d2).unwrap().current, vec![String::from("g")]);
    assert!(h.get(&d1).unwrap().previous.is_empty());
}

#[test]
fn untimed_entries_are_seen_but_not_tracked() {
    let mut t = FileTracker::new();
    let mut h = FileHistory::new();
    let key = String::from("/remote");
    let l = listing(&[("a", None), ("b", Some(4)), ("c", None)]);
    collect_listing(&mut t, &mut h, &key, Source::Ftp(0), &l, 0);
    assert!(info(&t, "a").is_none());
    assert_eq!(info(&t, "b").unwrap().source, Source::Ftp(0));
    assert_eq!(h.get(&key).unwrap().current.len(), 3);
    assert_eq!(last_listed_time(&l), Some(4));
    assert_eq!(last_listed_time(&listing(&[("a", None)])), None);
}

#[test]
fn folder_actions() {
    let newest = FileInfo { source: Source::Folder(1), modified: 50, delete: false };
    assert_eq!(folder_action(newest, None), FolderAction::CopyFromFolder(1));
    assert_eq!(folder_action(newest, Some(10)), FolderAction::CopyFromFolder(1));
    assert_eq!(folder_action(newest, Some(50)), FolderAction::Keep);
    assert_eq!(folder_action(newest, Some(60)), FolderAction::Keep);
    let remote = FileInfo { source: Source::Ftp(3), modified: 50, delete: false };
    assert_eq!(folder_action(remote, None), FolderAction::DownloadFromFtp(3));
    let gone = FileInfo { delete: true, ..newest };
    assert_eq!(folder_action(gone, Some(99)), FolderAction::Delete);
}

#[test]
fn ftp_actions() {
    let local = FileInfo { source: Source::Folder(0), modified: 5, delete: false };
    assert_eq!(ftp_action(local, None), FtpAction::UploadFromFolder(0));
    assert_eq!(ftp_action(local, Some(4)), FtpAction::UploadFromFolder(0));
    assert_eq!(ftp_action(local, Some(5)), FtpAction::Keep);
    let remote = FileInfo { source: Source::Ftp(1), modified: 5, delete: false };
    assert_eq!(ftp_action(remote, None), FtpAction::CopyFromFtp(1));
    assert_eq!(ftp_action(FileInfo { delete: true, ..remote }, None), FtpAction::Delete);
}

#[test]
fn enough_locations() {
    assert!(!can_synchronise(0, 0));
    assert!(!can_synchronise(1, 0));
    assert!(!can_synchronise(0, 1));
    assert!(can_synchronise(1, 1));
    assert!(can_synchronise(2, 0));
    assert!(can_synchronise(0, 5));
}

#[test]
fn listing_lines() {
    let line = "-rw-r--r--   1 owner group   1234 Jan 01 10:00 my file.txt";
    match ftp_listing_entry(line) {
        ListingEntry::File(n) => assert_eq!(n, "my file.txt"),
        other => panic!("{:?}", other),
    }
    match ftp_listing_entry("a  b c d e f g h   x\ty") {
        ListingEntry::File(n) => assert_eq!(n, "x y"),
        other => panic!("{:?}", other),
    }
    assert!(matches!(ftp_listing_entry("total 8"), ListingEntry::Malformed));
    assert!(matches!(
        ftp_listing_entry("-rw-r--r-- 1 o g 282 Jan 01 10:00 desktop.ini"),
        ListingEntry::Ignored
    ));
}

#[test]
fn listing_mentions_substrings() {
    let l = vec![String::from("-rw 1 o g 3 Jan 1 1:00 notes.txt"), String::from("x")];
    assert!(listing_mentions(&l, "notes.txt"));
    assert!(listing_mentions(&l, "notes"));
    assert!(!listing_mentions(&l, "other"));
    assert!(listing_mentions(&l, ""));
    assert!(!listing_mentions(&Vec::new(), ""));
}

#[test]
fn remote_paths_use_forward_slashes() {
    assert_eq!(ftp_remote_path("a\\b\\c"), "a/b/c");
    assert_eq!(ftp_remote_path("plain/path"), "plain/path");
}

#[test]
fn rescanning_an_unchanged_location_changes_nothing() {
    let mut t = FileTracker::new();
    let mut h = FileHistory::new();
    let dir = String::from("same");
    let l = listing(&[("a", Some(1)), ("b", Some(2))]);
    collect_listing(&mut t, &mut h, &dir, Source::Folder(0), &l, 10);
    let before: Vec<(String, FileInfo)> = (0..t.len()).map(|k| {
        let (p, i) = t.entry(k);
        (p.clone(), i)
    }).collect();
    collect_listing(&mut t, &mut h, &dir, Source::Folder(0), &l, 20);
    let after: Vec<(String, FileInfo)> = (0..t.len()).map(|k| {
        let (p, i) = t.entry(k);
        (p.clone(), i)
    }).collect();
    assert_eq!(before, after);
    assert!(after.iter().all(|(_, i)| !i.delete));
}
