use rustag::clock::Timestamp;
use rustag::error::CatalogError;
use rustag::tags::FileRecord;
use rustag::tags::TagCatalog;

fn file(name: &str, tags: &[&str]) -> FileRecord {
    FileRecord::new(
        name.to_string(),
        format!("/home/u/{}", name),
        Timestamp { secs: 1_700_000_000, nanos: 0 },
        tags.iter().map(|t| t.to_string()).collect(),
    )
}

fn tags_of(catalog: &TagCatalog) -> Vec<&str> {
    catalog.tags().iter().map(|t| t.as_str()).collect()
}

fn names_under<'a>(catalog: &'a TagCatalog, tag: &str) -> Vec<&'a str> {
    catalog.files_of(tag).unwrap().iter().map(|f| f.get_name()).collect()
}

fn holds_invariant(catalog: &TagCatalog) {
    let tags = catalog.tags();
    let mut seen = tags.clone();
    seen.sort();
    seen.dedup();
    assert_eq!(seen.len(), tags.len());
    for tag in tags {
        let files = catalog.files_of(tag).unwrap();
        assert!(!files.is_empty());
        let mut names: Vec<&str> = files.iter().map(|f| f.get_name()).collect();
        names.sort();
        names.dedup();
        assert_eq!(names.len(), files.len());
    }
}

#[test]
fn new_tag_catalog_is_empty() {
    let catalog = TagCatalog::new();
    assert!(catalog.tags().is_empty());
    assert!(catalog.files_of("work").is_none());
    assert!(TagCatalog::default().tags().is_empty());
}

#[test]
fn file_record_getters_give_back_the_parts() {
    let f = file("a.txt", &["work", "home"]);
    assert_eq!(f.get_name(), "a.txt");
    assert_eq!(f.get_path(), "/home/u/a.txt");
    assert_eq!(*f.get_created_at(), Timestamp { secs: 1_700_000_000, nanos: 0 });
    assert_eq!(f.get_tags(), &vec!["work".to_string(), "home".to_string()]);
    assert_eq!(f.clone(), f);
}

#[test]
fn insert_file_files_under_every_tag() {
    let mut catalog = TagCatalog::new();
    let skipped = catalog.insert_file(file("a.txt", &["work", "home"]));
    assert!(skipped.is_empty());
    assert_eq!(tags_of(&catalog), vec!["work", "home"]);
    assert_eq!(names_under(&catalog, "work"), vec!["a.txt"]);
    assert_eq!(names_under(&catalog, "home"), vec!["a.txt"]);
    assert_eq!(catalog.files_of("work").unwrap()[0], file("a.txt", &["work", "home"]));
    holds_invariant(&catalog);
}

#[test]
fn tags_keep_the_order_of_first_use() {
    let mut catalog = TagCatalog::new();
    catalog.insert_file(file("a.txt", &["zeta", "alpha"]));
    catalog.insert_file(file("b.txt", &["mid", "alpha", "zeta"]));
    assert_eq!(tags_of(&catalog), vec!["zeta", "alpha", "mid"]);
    assert_eq!(names_under(&catalog, "alpha"), vec!["a.txt", "b.txt"]);
    assert_eq!(names_under(&catalog, "zeta"), vec!["a.txt", "b.txt"]);
    assert_eq!(names_under(&catalog, "mid"), vec!["b.txt"]);
}

#[test]
fn duplicate_insert_is_skipped() {
    let mut catalog = TagCatalog::new();
    assert!(catalog.insert_file(file("a.txt", &["work"])).is_empty());
    let skipped = catalog.insert_file(file("a.txt", &["work"]));
    assert_eq!(skipped, vec!["work".to_string()]);
    assert_eq!(names_under(&catalog, "work"), vec!["a.txt"]);
    assert_eq!(catalog.files_of("work").unwrap().len(), 1);
    assert_eq!(tags_of(&catalog), vec!["work"]);
}

#[test]
fn skip_under_one_tag_does_not_stop_the_others() {
    let mut catalog = TagCatalog::new();
    catalog.insert_file(file("a.txt", &["work"]));
    let other = FileRecord::new(
        "a.txt".to_string(),
        "/elsewhere/a.txt".to_string(),
        Timestamp { secs: 5, nanos: 0 },
        vec!["home".to_string(), "work".to_string(), "misc".to_string()],
    );
    let skipped = catalog.insert_file(other);
    assert_eq!(skipped, vec!["work".to_string()]);
    assert_eq!(tags_of(&catalog), vec!["work", "home", "misc"]);
    assert_eq!(catalog.files_of("work").unwrap()[0].get_path(), "/home/u/a.txt");
    assert_eq!(catalog.files_of("home").unwrap()[0].get_path(), "/elsewhere/a.txt");
    assert_eq!(catalog.files_of("misc").unwrap()[0].get_path(), "/elsewhere/a.txt");
    holds_invariant(&catalog);
}

#[test]
fn tag_listed_twice_is_served_once() {
    let mut catalog = TagCatalog::new();
    let skipped = catalog.insert_file(file("a.txt", &["work", "work"]));
    assert_eq!(skipped, vec!["work".to_string()]);
    assert_eq!(tags_of(&catalog), vec!["work"]);
    assert_eq!(names_under(&catalog, "work"), vec!["a.txt"]);
}

#[test]
fn file_without_tags_is_filed_nowhere() {
    let mut catalog = TagCatalog::new();
    assert!(catalog.insert_file(file("a.txt", &[])).is_empty());
    assert!(catalog.tags().is_empty());
}

#[test]
fn remove_tag_of_unknown_tag_changes_nothing() {
    let mut catalog = TagCatalog::new();
    catalog.insert_file(file("a.txt", &["work", "home"]));
    catalog.remove_tag("x");
    assert_eq!(tags_of(&catalog), vec!["work", "home"]);
    assert_eq!(names_under(&catalog, "work"), vec!["a.txt"]);
    assert_eq!(names_under(&catalog, "home"), vec!["a.txt"]);
    let mut empty = TagCatalog::new();
    empty.remove_tag("x");
    assert!(empty.tags().is_empty());
}

#[test]
fn remove_tag_takes_tag_and_bucket() {
    let mut catalog = TagCatalog::new();
    catalog.insert_file(file("a.txt", &["work", "home", "misc"]));
    catalog.insert_file(file("b.txt", &["home"]));
    catalog.remove_tag("home");
    assert_eq!(tags_of(&catalog), vec!["work", "misc"]);
    assert!(catalog.files_of("home").is_none());
    assert_eq!(names_under(&catalog, "work"), vec!["a.txt"]);
    holds_invariant(&catalog);
}

#[test]
fn removing_last_file_removes_tag() {
    let mut catalog = TagCatalog::new();
    catalog.insert_file(file("a.txt", &["work"]));
    catalog.remove_file("work", "a.txt");
    assert!(!catalog.tags().contains(&"work".to_string()));
    assert!(catalog.tags().is_empty());
    assert!(catalog.files_of("work").is_none());
}

#[test]
fn remove_file_leaves_other_tags_alone() {
    let mut catalog = TagCatalog::new();
    catalog.insert_file(file("a.txt", &["work", "home"]));
    catalog.insert_file(file("b.txt", &["work"]));
    catalog.insert_file(file("c.txt", &["work"]));
    catalog.remove_file("work", "b.txt");
    assert_eq!(names_under(&catalog, "work"), vec!["a.txt", "c.txt"]);
    assert_eq!(names_under(&catalog, "home"), vec!["a.txt"]);
    catalog.remove_file("work", "a.txt");
    assert_eq!(names_under(&catalog, "work"), vec!["c.txt"]);
    assert_eq!(names_under(&catalog, "home"), vec!["a.txt"]);
    assert_eq!(tags_of(&catalog), vec!["work", "home"]);
    holds_invariant(&catalog);
}

#[test]
fn remove_file_of_unknown_tag_or_file_changes_nothing() {
    let mut catalog = TagCatalog::new();
    catalog.insert_file(file("a.txt", &["work"]));
    catalog.remove_file("home", "a.txt");
    catalog.remove_file("work", "b.txt");
    assert_eq!(tags_of(&catalog), vec!["work"]);
    assert_eq!(names_under(&catalog, "work"), vec!["a.txt"]);
}

#[test]
fn removed_tag_comes_back_last() {
    let mut catalog = TagCatalog::new();
    catalog.insert_file(file("a.txt", &["one", "two"]));
    catalog.remove_file("one", "a.txt");
    catalog.insert_file(file("b.txt", &["one"]));
    assert_eq!(tags_of(&catalog), vec!["two", "one"]);
}

#[test]
fn many_changes_keep_tags_and_buckets_together() {
    let mut catalog = TagCatalog::new();
    let tags = ["t0", "t1", "t2", "t3"];
    for i in 0..40usize {
        let name = format!("f{}.txt", i % 7);
        let a = tags[i % 4];
        let b = tags[(i * 3 + 1) % 4];
        match i % 5 {
            0 | 1 | 2 => {
                catalog.insert_file(file(&name, &[a, b]));
            }
            3 => catalog.remove_file(a, &name),
            _ => catalog.remove_tag(b),
        }
        holds_invariant(&catalog);
    }
}

#[test]
fn tag_catalog_survives_being_taken_apart() {
    let mut catalog = TagCatalog::new();
    catalog.insert_file(file("a.txt", &["work", "home"]));
    catalog.insert_file(file("b.txt", &["home"]));
    let tags = catalog.tags().clone();
    let buckets: Vec<Vec<FileRecord>> =
        tags.iter().map(|t| catalog.files_of(t).unwrap().clone()).collect();
    let back = TagCatalog::from_buckets(tags, buckets).ok().unwrap();
    assert_eq!(back.tags(), catalog.tags());
    for tag in catalog.tags() {
        assert_eq!(back.files_of(tag), catalog.files_of(tag));
    }
    assert!(TagCatalog::from_buckets(Vec::new(), Vec::new()).ok().unwrap().tags().is_empty());
}

#[test]
fn broken_tag_data_cannot_be_restored() {
    let t = |names: &[&str]| -> Vec<String> { names.iter().map(|s| s.to_string()).collect() };
    let refused = |tags: Vec<String>, buckets: Vec<Vec<FileRecord>>| {
        assert_eq!(TagCatalog::from_buckets(tags, buckets).err(), Some(CatalogError::DecodeError));
    };
    // more tags than buckets, and the other way round
    refused(t(&["a", "b"]), vec![vec![file("x", &["a"])]]);
    refused(t(&["a"]), vec![vec![file("x", &["a"])], vec![file("y", &["a"])]]);
    // a tag twice
    refused(t(&["a", "a"]), vec![vec![file("x", &["a"])], vec![file("y", &["a"])]]);
    // an empty bucket
    refused(t(&["a", "b"]), vec![vec![file("x", &["a"])], vec![]]);
    // a file name twice in one bucket
    refused(t(&["a"]), vec![vec![file("x", &["a"]), file("y", &["a"]), file("x", &["a"])]]);
}
