use taureria::library::{
    removal_result, Content, Date, Library, LibraryInfo, LibraryMetadata, PendingContent,
    RemovalOutcome,
};

fn is_uuid_v4(s: &str) -> bool {
    let c: Vec<char> = s.chars().collect();
    c.len() == 36
        && c.iter().enumerate().all(|(i, ch)| {
            if i == 8 || i == 13 || i == 18 || i == 23 {
                *ch == '-'
            } else {
                ch.is_ascii_digit() || ('a'..='f').contains(ch)
            }
        })
        && c[14] == '4'
        && "89ab".contains(c[19])
}

fn content(id: &str, name: &str) -> Content {
    Content::new(id.to_string(), name.to_string(), Date { year: 2024, month: 2, day: 29 })
}

#[test]
fn library_new_keeps_its_fields() {
    let l = Library::new("id1".to_string(), "Comics".to_string(), "/data/comics".to_string());
    assert_eq!(l.id, "id1");
    assert_eq!(l.name, "Comics");
    assert_eq!(l.path, "/data/comics");
}

#[test]
fn library_info_new_is_empty() {
    let info = LibraryInfo::new();
    assert!(info.library_lists.is_empty());
}

#[test]
fn register_appends_a_library_with_a_fresh_uuid() {
    let mut info = LibraryInfo::new();
    let a = info.register("A".to_string(), "/a".to_string());
    let b = info.register("B".to_string(), "/b".to_string());
    assert_eq!(info.library_lists.len(), 2);
    assert_eq!(info.library_lists[0].name, "A");
    assert_eq!(info.library_lists[0].path, "/a");
    assert_eq!(info.library_lists[0].id, a);
    assert_eq!(info.library_lists[1].name, "B");
    assert_eq!(info.library_lists[1].id, b);
    assert!(is_uuid_v4(&a));
    assert!(is_uuid_v4(&b));
    assert_ne!(a, b);
}

#[test]
fn remove_path_drops_every_match_and_keeps_order() {
    let mut info = LibraryInfo::new();
    info.library_lists.push(Library::new("1".into(), "x".into(), "/a".into()));
    info.library_lists.push(Library::new("2".into(), "y".into(), "/b".into()));
    info.library_lists.push(Library::new("3".into(), "z".into(), "/a".into()));
    info.library_lists.push(Library::new("4".into(), "w".into(), "/c".into()));
    info.remove_path(&"/a".to_string());
    let ids: Vec<&str> = info.library_lists.iter().map(|l| l.id.as_str()).collect();
    assert_eq!(ids, vec!["2", "4"]);
}

#[test]
fn register_then_remove_gives_back_the_catalogue() {
    let mut info = LibraryInfo::new();
    info.library_lists.push(Library::new("1".into(), "x".into(), "/a".into()));
    info.register("new".to_string(), "/new".to_string());
    info.remove_path(&"/new".to_string());
    assert_eq!(info.library_lists.len(), 1);
    assert_eq!(info.library_lists[0].id, "1");
}

#[test]
fn remove_absent_path_changes_nothing() {
    let mut info = LibraryInfo::new();
    info.library_lists.push(Library::new("1".into(), "x".into(), "/a".into()));
    info.library_lists.push(Library::new("2".into(), "y".into(), "/b".into()));
    info.remove_path(&"/zzz".to_string());
    assert_eq!(info.library_lists.len(), 2);
    assert_eq!(info.library_lists[1].path, "/b");
}

#[test]
fn metadata_insert_adds_and_replaces() {
    let mut m = LibraryMetadata::new();
    assert_eq!(m.len(), 0);
    m.insert("a.zip".to_string(), content("id-a", "a.zip"));
    m.insert("b.zip".to_string(), content("id-b", "b.zip"));
    assert_eq!(m.len(), 2);
    assert!(m.contains_key(&"a.zip".to_string()));
    assert!(!m.contains_key(&"c.zip".to_string()));
    m.insert("a.zip".to_string(), content("id-a2", "a.zip"));
    assert_eq!(m.len(), 2);
    let list = m.contents_list();
    assert_eq!(list.len(), 2);
    assert_eq!(list[0].id, "id-a2");
    assert_eq!(list[1].id, "id-b");
    assert_eq!(list[1].added, Date { year: 2024, month: 2, day: 29 });
}

#[test]
fn entries_list_keeps_the_keys() {
    let mut m = LibraryMetadata::new();
    m.insert("key-a".to_string(), content("id-a", "a.zip"));
    m.insert("key-b".to_string(), content("id-b", "b.zip"));
    let e = m.entries_list();
    assert_eq!(e.len(), 2);
    assert_eq!(e[0].0, "key-a");
    assert_eq!(e[0].1.file_name, "a.zip");
    assert_eq!(e[1].0, "key-b");
    assert_eq!(e[1].1.id, "id-b");
}

#[test]
fn a_second_update_with_the_same_outcomes_changes_nothing() {
    let zips = vec!["ok.zip".to_string(), "broken.zip".to_string(), "old.zip".to_string()];
    let mut m = LibraryMetadata::new();
    m.insert("old.zip".to_string(), content("id-old", "old.zip"));
    let made = |name: &str| name != "broken.zip";
    for name in m.pending_targets(&zips) {
        let ok = made(&name);
        m.finish_content(PendingContent::begin(name), ok);
    }
    let first: Vec<(String, String)> = m.entries_list().into_iter().map(|(k, c)| (k, c.id)).collect();
    let again = m.pending_targets(&zips);
    assert_eq!(again, vec!["broken.zip".to_string()]);
    for name in again {
        let ok = made(&name);
        m.finish_content(PendingContent::begin(name), ok);
    }
    let second: Vec<(String, String)> = m.entries_list().into_iter().map(|(k, c)| (k, c.id)).collect();
    assert_eq!(first, second);
    assert_eq!(first.len(), 2);
}

#[test]
fn contents_list_of_empty_metadata_is_empty() {
    assert!(LibraryMetadata::new().contents_list().is_empty());
}

#[test]
fn pending_targets_are_the_unrecorded_archives_in_order() {
    let mut m = LibraryMetadata::new();
    m.insert("b.zip".to_string(), content("1", "b.zip"));
    let zips = vec!["a.zip".to_string(), "b.zip".to_string(), "c.zip".to_string()];
    assert_eq!(m.pending_targets(&zips), vec!["a.zip".to_string(), "c.zip".to_string()]);
}

#[test]
fn recorded_archive_is_no_longer_pending() {
    let mut m = LibraryMetadata::new();
    let zips = vec!["a.zip".to_string(), "b.zip".to_string()];
    let pending = PendingContent::begin("a.zip".to_string());
    m.finish_content(pending, true);
    assert_eq!(m.pending_targets(&zips), vec!["b.zip".to_string()]);
    let pending = PendingContent::begin("b.zip".to_string());
    m.finish_content(pending, true);
    assert!(m.pending_targets(&zips).is_empty());
}

#[test]
fn begin_gives_a_fresh_uuid() {
    let p = PendingContent::begin("x.zip".to_string());
    assert_eq!(p.file_name, "x.zip");
    assert!(is_uuid_v4(&p.content_id));
    let q = PendingContent::begin("x.zip".to_string());
    assert_ne!(p.content_id, q.content_id);
}

#[test]
fn finish_content_records_only_made_thumbnails() {
    let mut m = LibraryMetadata::new();
    let p = PendingContent::begin("fail.zip".to_string());
    assert_eq!(m.finish_content(p, false), None);
    assert_eq!(m.len(), 0);

    let p = PendingContent::begin("ok.zip".to_string());
    let id = p.content_id.clone();
    let before = chrono::Local::now().date_naive();
    let added = m.finish_content(p, true).expect("a date");
    let after = chrono::Local::now().date_naive();
    assert!(added.month >= 1 && added.month <= 12);
    assert!(added.day >= 1 && added.day <= 31);
    let d = chrono::NaiveDate::from_ymd_opt(added.year, added.month, added.day).expect("valid");
    assert!(before <= d && d <= after);
    let list = m.contents_list();
    assert_eq!(list.len(), 1);
    assert_eq!(list[0].id, id);
    assert_eq!(list[0].file_name, "ok.zip");
    assert_eq!(list[0].added, added);
}

#[test]
fn removal_result_tolerates_a_missing_directory() {
    assert_eq!(removal_result(RemovalOutcome::Removed), Ok(()));
    assert_eq!(removal_result(RemovalOutcome::NotFound), Ok(()));
    assert_eq!(
        removal_result(RemovalOutcome::Failed("permission denied".to_string())),
        Err("Failed to remove .taureria: permission denied".to_string())
    );
}
