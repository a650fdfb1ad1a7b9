use dirlist::entry::{is_hidden, EntryKind, RawEntry, RawMeta, Timestamp};
use dirlist::listing::{
    classify_compact, classify_detailed, list_compact, list_detailed, visible_entries,
};

fn file(name: &str, len: u64) -> RawEntry {
    RawEntry::new(
        name.as_bytes().to_vec(),
        Some(RawMeta {
            is_dir: false,
            len,
            modified: Some(Timestamp { secs: 1431648000, nanos: 0 }),
            mode: 0o100644,
            uid: 0,
        }),
    )
}

fn dir(name: &str) -> RawEntry {
    RawEntry::new(
        name.as_bytes().to_vec(),
        Some(RawMeta { is_dir: true, len: 4096, modified: None, mode: 0o40755, uid: 0 }),
    )
}

fn unreadable(name: &str) -> RawEntry {
    RawEntry::new(name.as_bytes().to_vec(), None)
}

fn names(listed: &[dirlist::listing::ClassifiedEntry]) -> Vec<String> {
    listed.iter().map(|e| e.name.clone()).collect()
}

#[test]
fn a_name_is_hidden_when_it_starts_with_a_dot() {
    assert!(is_hidden(&b".hidden".to_vec()));
    assert!(is_hidden(&b".".to_vec()));
    assert!(is_hidden(&b"..".to_vec()));
    assert!(!is_hidden(&b"b.txt".to_vec()));
    assert!(!is_hidden(&b"a.".to_vec()));
    assert!(!is_hidden(&Vec::new()));
    assert!(!is_hidden(&vec![0xff, 0x2e]));
}

#[test]
fn compact_listing_leaves_hidden_entries_out() {
    let entries = vec![file("b.txt", 3), dir("A"), file(".hidden", 1)];
    let listed = list_compact(&entries, false);
    let mut shown = names(&listed);
    shown.sort();
    assert_eq!(shown, vec!["A", "b.txt"]);
}

#[test]
fn compact_listing_keeps_the_order_of_reading() {
    let entries = vec![file("b.txt", 3), dir("A"), file(".hidden", 1), file("a", 0)];
    assert_eq!(names(&list_compact(&entries, false)), vec!["b.txt", "A", "a"]);
    assert_eq!(names(&list_compact(&entries, true)), vec!["b.txt", "A", ".hidden", "a"]);
}

#[test]
fn shown_and_hidden_entries_make_up_the_directory() {
    let entries = vec![file(".a", 1), file("b", 2), dir(".c"), dir("d"), unreadable(".e")];
    let all = visible_entries(&entries, true);
    let open = visible_entries(&entries, false);
    assert_eq!(all, entries);
    assert!(open.iter().all(|e| !is_hidden(&e.name)));
    let shut: Vec<RawEntry> = entries.iter().filter(|e| is_hidden(&e.name)).cloned().collect();
    assert_eq!(open.len() + shut.len(), entries.len());
    for e in &entries {
        assert!(open.contains(e) != shut.contains(e));
    }
}

#[test]
fn an_empty_directory_lists_nothing() {
    assert!(list_compact(&Vec::new(), false).is_empty());
    assert!(list_compact(&Vec::new(), true).is_empty());
    assert!(list_detailed(&Vec::new(), true).is_empty());
}

#[test]
fn compact_record_holds_name_kind_size_and_time() {
    let listed = classify_compact(&file("b.txt", 42));
    assert_eq!(listed.name, "b.txt");
    assert_eq!(listed.kind, EntryKind::File);
    assert_eq!(listed.size_bytes, 42);
    assert_eq!(listed.modified, Some(Timestamp { secs: 1431648000, nanos: 0 }));
    assert_eq!(listed.permissions, None);
    assert_eq!(listed.owner, None);
    let listed = classify_compact(&dir("A"));
    assert_eq!(listed.kind, EntryKind::Directory);
    assert_eq!(listed.size_bytes, 4096);
    assert_eq!(listed.modified, None);
}

#[test]
fn detailed_record_adds_permissions_and_owner() {
    let listed = classify_detailed(&file("b.txt", 42), Some(String::from("ada")));
    assert_eq!(listed.name, "b.txt");
    assert_eq!(listed.kind, EntryKind::File);
    assert_eq!(listed.size_bytes, 42);
    assert_eq!(listed.permissions.as_deref(), Some("644"));
    assert_eq!(listed.owner.as_deref(), Some("ada"));
    let listed = classify_detailed(&dir("A"), None);
    assert_eq!(listed.permissions.as_deref(), Some("755"));
    assert_eq!(listed.owner.as_deref(), Some("0"));
}

#[test]
fn an_entry_without_metadata_is_still_listed() {
    let entries = vec![file("a", 1), unreadable("gone"), dir("z")];
    let listed = list_detailed(&entries, false);
    assert_eq!(names(&listed), vec!["a", "gone", "z"]);
    assert_eq!(listed[1].kind, EntryKind::File);
    assert_eq!(listed[1].size_bytes, 0);
    assert_eq!(listed[1].modified, None);
    assert_eq!(listed[1].permissions, None);
    assert_eq!(listed[1].owner, None);
    assert_eq!(listed[0].permissions.as_deref(), Some("644"));
    assert!(listed[0].owner.is_some());
    assert_eq!(listed[2].permissions.as_deref(), Some("755"));
    let listed = list_compact(&entries, false);
    assert_eq!(names(&listed), vec!["a", "gone", "z"]);
    assert_eq!(listed[1].size_bytes, 0);
}

#[test]
fn an_account_lookup_that_fails_does_not_drop_the_entry() {
    let entry = classify_detailed(&file("a", 1), None);
    assert_eq!(entry.owner.as_deref(), Some("0"));
    let mut odd = file("b", 1);
    odd.meta = Some(RawMeta { is_dir: false, len: 1, modified: None, mode: 0, uid: 4_000_000_123 });
    let listed = list_detailed(&vec![odd], false);
    assert_eq!(listed.len(), 1);
    let owner = listed[0].owner.clone();
    assert!(owner.is_some());
    assert!(!owner.unwrap().is_empty());
}

#[test]
fn a_name_that_is_not_utf8_is_listed_under_the_placeholder() {
    let entries = vec![RawEntry::new(vec![0x66, 0xff], None), file("ok", 1)];
    assert_eq!(names(&list_compact(&entries, false)), vec!["unknown name", "ok"]);
}

#[test]
fn a_duplicate_equals_the_entry_it_was_made_from() {
    let e = file("b.txt", 3);
    assert_eq!(e.duplicate(), e);
    assert!(!e.is_dir());
    assert!(dir("A").is_dir());
    assert!(!unreadable("x").is_dir());
    assert_eq!(unreadable("x").kind(), EntryKind::File);
}
