use rustag::bookmark::Bookmark;
use rustag::bookmark::BookmarkList;
use rustag::clock::Timestamp;
use rustag::error::CatalogError;
use rustag::session::add_bookmark;
use rustag::session::add_bookmark_at;
use rustag::session::menu_items;
use rustag::session::resolve_folder;
use rustag::session::view_step;
use rustag::session::view_step_at;
use rustag::session::FolderFault;
use rustag::session::ViewAnswer;
use rustag::session::ViewOutcome;
use rustag::session::ViewRequest;

fn at(secs: i64) -> Timestamp {
    Timestamp { secs, nanos: 0 }
}

fn sample() -> BookmarkList {
    let mut list = BookmarkList::new();
    for (alias, path) in [("proj", "/home/u/proj"), ("docs", "/home/u/docs"), ("tmp", "/tmp")] {
        list.insert_bookmark(Bookmark::new(alias.to_string(), path.to_string(), at(10))).unwrap();
    }
    list
}

fn aliases_of(list: &BookmarkList) -> Vec<&str> {
    list.get_aliases().iter().map(|a| a.as_str()).collect()
}

fn s(text: &str) -> String {
    text.to_string()
}

#[test]
fn menu_shows_alias_and_folder() {
    assert_eq!(
        menu_items(&sample()),
        vec![s("docs -> /home/u/docs"), s("proj -> /home/u/proj"), s("tmp -> /tmp")]
    );
    assert!(menu_items(&BookmarkList::new()).is_empty());
}

#[test]
fn folder_is_resolved_when_all_is_well() {
    assert_eq!(resolve_folder(true, true, Some(s("/home/u"))), Ok(s("/home/u")));
}

#[test]
fn folder_faults_come_in_order() {
    assert_eq!(resolve_folder(false, false, None), Err(FolderFault::Missing));
    assert_eq!(resolve_folder(false, true, Some(s("/x"))), Err(FolderFault::Missing));
    assert_eq!(resolve_folder(true, false, Some(s("/x"))), Err(FolderFault::NotADirectory));
    assert_eq!(resolve_folder(true, false, None), Err(FolderFault::NotADirectory));
    assert_eq!(resolve_folder(true, true, None), Err(FolderFault::NotText));
    assert_eq!(FolderFault::Missing.kind(), CatalogError::InvalidPath);
    assert_eq!(FolderFault::NotADirectory.kind(), CatalogError::InvalidPath);
    assert_eq!(FolderFault::NotText.kind(), CatalogError::InvalidPath);
    assert_eq!(FolderFault::Missing.message(), "Current directory does not exist");
    assert_eq!(FolderFault::NotADirectory.message(), "Current path is not a directory");
    assert_eq!(FolderFault::NotText.message(), "Path contains invalid UTF-8 characters");
}

#[test]
fn add_bookmark_at_stores_the_trimmed_alias() {
    let mut list = sample();
    let r = add_bookmark_at(&mut list, s("/srv/www"), "  www \n", at(99));
    assert_eq!(r, Ok(s("www")));
    assert_eq!(aliases_of(&list), vec!["docs", "proj", "tmp", "www"]);
    let b = list.get_bookmark("www").unwrap();
    assert_eq!(b.get_alias(), "www");
    assert_eq!(b.get_folder_path(), "/srv/www");
    assert_eq!(*b.get_created_at(), at(99));
    assert_eq!(*b.get_last_accessed(), None);
}

#[test]
fn add_bookmark_at_refuses_bad_aliases() {
    let mut list = sample();
    assert_eq!(add_bookmark_at(&mut list, s("/x"), "  ", at(1)), Err(CatalogError::InvalidAlias));
    assert_eq!(add_bookmark_at(&mut list, s("/x"), "a/b", at(1)), Err(CatalogError::InvalidAlias));
    assert_eq!(add_bookmark_at(&mut list, s("/x"), "a\\b", at(1)), Err(CatalogError::InvalidAlias));
    assert_eq!(
        add_bookmark_at(&mut list, s("/x"), " proj ", at(1)),
        Err(CatalogError::DuplicateAlias)
    );
    assert_eq!(aliases_of(&list), vec!["docs", "proj", "tmp"]);
    assert_eq!(list.get_bookmark("proj").unwrap().get_folder_path(), "/home/u/proj");
}

#[test]
fn add_bookmark_reads_the_clock() {
    let mut list = BookmarkList::new();
    assert_eq!(add_bookmark(&mut list, s("/srv"), " srv "), Ok(s("srv")));
    let b = list.get_bookmark("srv").unwrap();
    assert!(b.get_created_at().secs > 1_577_836_800);
    assert_eq!(*b.get_last_accessed(), None);
    assert_eq!(add_bookmark(&mut list, s("/srv"), "srv"), Err(CatalogError::DuplicateAlias));
    assert_eq!(add_bookmark(&mut list, s("/srv"), ""), Err(CatalogError::InvalidAlias));
    assert_eq!(aliases_of(&list), vec!["srv"]);
}

#[test]
fn view_of_empty_catalog_ends_at_once() {
    let mut list = BookmarkList::new();
    assert_eq!(
        view_step(&mut list, ViewAnswer::Begin),
        ViewRequest::Finish(ViewOutcome::NoBookmarks)
    );
    assert!(!ViewOutcome::NoBookmarks.changed());
}

#[test]
fn view_begins_with_the_menu() {
    let mut list = sample();
    assert_eq!(
        view_step(&mut list, ViewAnswer::Begin),
        ViewRequest::PickBookmark {
            items: vec![s("docs -> /home/u/docs"), s("proj -> /home/u/proj"), s("tmp -> /tmp")]
        }
    );
}

#[test]
fn picked_bookmark_has_its_folder_checked() {
    let mut list = sample();
    assert_eq!(
        view_step(&mut list, ViewAnswer::BookmarkPicked { selection: 1 }),
        ViewRequest::CheckFolder { alias: s("proj"), path: s("/home/u/proj") }
    );
    assert_eq!(
        view_step(&mut list, ViewAnswer::BookmarkPicked { selection: 2 }),
        ViewRequest::CheckFolder { alias: s("tmp"), path: s("/tmp") }
    );
}

#[test]
fn selection_outside_the_menu_fails() {
    let mut list = sample();
    assert_eq!(
        view_step(&mut list, ViewAnswer::BookmarkPicked { selection: 3 }),
        ViewRequest::Finish(ViewOutcome::Failed(CatalogError::NotFound))
    );
    assert!(!ViewOutcome::Failed(CatalogError::NotFound).changed());
}

#[test]
fn found_folder_leads_to_the_actions() {
    let mut list = sample();
    assert_eq!(
        view_step(&mut list, ViewAnswer::FolderChecked { alias: s("proj"), found: true }),
        ViewRequest::PickAction { alias: s("proj") }
    );
}

#[test]
fn missing_folder_leads_to_the_removal_question() {
    let mut list = sample();
    assert_eq!(
        view_step(&mut list, ViewAnswer::FolderChecked { alias: s("proj"), found: false }),
        ViewRequest::ConfirmRemoval { alias: s("proj"), path: s("/home/u/proj") }
    );
    assert_eq!(
        view_step(&mut list, ViewAnswer::FolderChecked { alias: s("ghost"), found: false }),
        ViewRequest::Finish(ViewOutcome::Failed(CatalogError::NotFound))
    );
}

#[test]
fn removal_is_done_only_on_yes() {
    let mut list = sample();
    assert_eq!(
        view_step(&mut list, ViewAnswer::RemovalAnswered { alias: s("proj"), selection: 1 }),
        ViewRequest::Finish(ViewOutcome::Unchanged)
    );
    assert_eq!(aliases_of(&list), vec!["docs", "proj", "tmp"]);
    assert_eq!(
        view_step(&mut list, ViewAnswer::RemovalAnswered { alias: s("proj"), selection: 0 }),
        ViewRequest::Finish(ViewOutcome::Removed { alias: s("proj") })
    );
    assert_eq!(aliases_of(&list), vec!["docs", "tmp"]);
    assert!(ViewOutcome::Removed { alias: s("proj") }.changed());
    assert!(!ViewOutcome::Unchanged.changed());
}

#[test]
fn open_in_terminal_records_the_access() {
    let mut list = sample();
    let when = Timestamp { secs: 1_900_000_000, nanos: 5 };
    assert_eq!(
        view_step_at(&mut list, ViewAnswer::ActionPicked { alias: s("proj"), selection: 0 }, when),
        ViewRequest::Finish(ViewOutcome::Opened { path: s("/home/u/proj") })
    );
    assert_eq!(*list.get_bookmark("proj").unwrap().get_last_accessed(), Some(when));
    assert_eq!(*list.get_bookmark("docs").unwrap().get_last_accessed(), None);
    assert!(ViewOutcome::Opened { path: s("/x") }.changed());
}

#[test]
fn open_in_terminal_reads_the_clock() {
    let mut list = sample();
    assert_eq!(
        view_step(&mut list, ViewAnswer::ActionPicked { alias: s("tmp"), selection: 0 }),
        ViewRequest::Finish(ViewOutcome::Opened { path: s("/tmp") })
    );
    let seen = list.get_bookmark("tmp").unwrap().get_last_accessed().unwrap();
    assert!(seen.secs > 1_577_836_800);
}

#[test]
fn open_in_file_manager_changes_nothing() {
    let mut list = sample();
    assert_eq!(
        view_step(&mut list, ViewAnswer::ActionPicked { alias: s("proj"), selection: 1 }),
        ViewRequest::Finish(ViewOutcome::ShowFolder { path: s("/home/u/proj") })
    );
    assert_eq!(*list.get_bookmark("proj").unwrap().get_last_accessed(), None);
    assert!(!ViewOutcome::ShowFolder { path: s("/x") }.changed());
}

#[test]
fn edit_alias_asks_for_the_new_one() {
    let mut list = sample();
    assert_eq!(
        view_step(&mut list, ViewAnswer::ActionPicked { alias: s("proj"), selection: 2 }),
        ViewRequest::EnterAlias { alias: s("proj") }
    );
}

#[test]
fn remove_action_removes() {
    let mut list = sample();
    assert_eq!(
        view_step(&mut list, ViewAnswer::ActionPicked { alias: s("docs"), selection: 3 }),
        ViewRequest::Finish(ViewOutcome::Removed { alias: s("docs") })
    );
    assert_eq!(aliases_of(&list), vec!["proj", "tmp"]);
}

#[test]
fn unknown_action_changes_nothing() {
    let mut list = sample();
    assert_eq!(
        view_step(&mut list, ViewAnswer::ActionPicked { alias: s("docs"), selection: 4 }),
        ViewRequest::Finish(ViewOutcome::Unchanged)
    );
    assert_eq!(aliases_of(&list), vec!["docs", "proj", "tmp"]);
}

#[test]
fn action_on_absent_bookmark_fails() {
    let mut list = sample();
    for selection in [0usize, 1] {
        assert_eq!(
            view_step(&mut list, ViewAnswer::ActionPicked { alias: s("ghost"), selection }),
            ViewRequest::Finish(ViewOutcome::Failed(CatalogError::NotFound))
        );
    }
    assert_eq!(aliases_of(&list), vec!["docs", "proj", "tmp"]);
}

#[test]
fn entered_alias_renames() {
    let mut list = sample();
    assert_eq!(
        view_step(&mut list, ViewAnswer::AliasEntered { alias: s("proj"), input: s("  work ") }),
        ViewRequest::Finish(ViewOutcome::Renamed { from: s("proj"), to: s("work") })
    );
    assert_eq!(aliases_of(&list), vec!["docs", "tmp", "work"]);
    assert_eq!(list.get_bookmark("work").unwrap().get_folder_path(), "/home/u/proj");
    assert_eq!(list.get_bookmark("work").unwrap().get_alias(), "work");
    assert!(ViewOutcome::Renamed { from: s("a"), to: s("b") }.changed());
}

#[test]
fn entered_alias_may_be_the_old_one() {
    let mut list = sample();
    assert_eq!(
        view_step(&mut list, ViewAnswer::AliasEntered { alias: s("proj"), input: s("proj") }),
        ViewRequest::Finish(ViewOutcome::Renamed { from: s("proj"), to: s("proj") })
    );
    assert_eq!(aliases_of(&list), vec!["docs", "proj", "tmp"]);
}

#[test]
fn bad_entered_alias_fails() {
    let mut list = sample();
    let mut step = |input: &str| {
        view_step(&mut list, ViewAnswer::AliasEntered { alias: s("proj"), input: s(input) })
    };
    assert_eq!(step(" "), ViewRequest::Finish(ViewOutcome::Failed(CatalogError::InvalidAlias)));
    assert_eq!(step("a/b"), ViewRequest::Finish(ViewOutcome::Failed(CatalogError::InvalidAlias)));
    assert_eq!(step("docs"), ViewRequest::Finish(ViewOutcome::Failed(CatalogError::DuplicateAlias)));
    assert_eq!(aliases_of(&list), vec!["docs", "proj", "tmp"]);
}

#[test]
fn rename_of_absent_bookmark_fails() {
    let mut list = sample();
    assert_eq!(
        view_step(&mut list, ViewAnswer::AliasEntered { alias: s("ghost"), input: s("new") }),
        ViewRequest::Finish(ViewOutcome::Failed(CatalogError::NotFound))
    );
    assert_eq!(aliases_of(&list), vec!["docs", "proj", "tmp"]);
}

#[test]
fn whole_dialogue_renames_a_bookmark() {
    let mut list = sample();
    let first = view_step(&mut list, ViewAnswer::Begin);
    assert!(matches!(first, ViewRequest::PickBookmark { .. }));
    let second = view_step(&mut list, ViewAnswer::BookmarkPicked { selection: 0 });
    let alias = match second {
        ViewRequest::CheckFolder { alias, path } => {
            assert_eq!(path, "/home/u/docs");
            alias
        }
        other => panic!("unexpected request {:?}", other),
    };
    let third = view_step(&mut list, ViewAnswer::FolderChecked { alias, found: true });
    let alias = match third {
        ViewRequest::PickAction { alias } => alias,
        other => panic!("unexpected request {:?}", other),
    };
    let fourth = view_step(&mut list, ViewAnswer::ActionPicked { alias, selection: 2 });
    let alias = match fourth {
        ViewRequest::EnterAlias { alias } => alias,
        other => panic!("unexpected request {:?}", other),
    };
    let last = view_step(&mut list, ViewAnswer::AliasEntered { alias, input: s("papers") });
    assert_eq!(last, ViewRequest::Finish(ViewOutcome::Renamed { from: s("docs"), to: s("papers") }));
    assert_eq!(aliases_of(&list), vec!["papers", "proj", "tmp"]);
}
