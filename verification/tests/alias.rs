use rustag::alias::check_alias;
use rustag::alias::has_char;
use rustag::alias::trim;
use rustag::alias::validate_alias;
use rustag::alias::AliasFault;
use rustag::bookmark::Bookmark;
use rustag::bookmark::BookmarkList;
use rustag::clock::Timestamp;
use rustag::error::CatalogError;
use rustag::text::position_of;
use rustag::text::str_precedes;

fn list_with(aliases: &[&str]) -> BookmarkList {
    let mut list = BookmarkList::new();
    for alias in aliases {
        let b = Bookmark::new(
            alias.to_string(),
            "/p".to_string(),
            Timestamp { secs: 0, nanos: 0 },
        );
        list.insert_bookmark(b).unwrap();
    }
    list
}

#[test]
fn trim_drops_white_space_around() {
    assert_eq!(trim("  proj  "), "proj");
    assert_eq!(trim("proj"), "proj");
    assert_eq!(trim("\t my proj\n"), "my proj");
    assert_eq!(trim(""), "");
    assert_eq!(trim(" \t\r\n"), "");
    assert_eq!(trim("x "), "x");
    assert_eq!(trim(" x"), "x");
    assert_eq!(trim("\u{3000}é 日本\u{a0}"), "é 日本");
}

#[test]
fn trim_agrees_with_the_standard_library() {
    let samples = [
        "", " ", "a", " a", "a ", " a b ", "\n\na\tb\r\n", "\u{2003}wide\u{2003}", "é", " é ",
        "\u{85}x\u{85}", "a\u{200b}", "  \u{feff}b ",
    ];
    for s in samples {
        assert_eq!(trim(s), s.trim());
    }
}

#[test]
fn has_char_finds_a_character() {
    assert!(has_char("a/b", '/'));
    assert!(has_char("/", '/'));
    assert!(has_char("a\\", '\\'));
    assert!(!has_char("ab", '/'));
    assert!(!has_char("", '/'));
    assert!(has_char("日本/", '/'));
    assert!(!has_char("日本", '/'));
}

#[test]
fn str_precedes_agrees_with_string_order() {
    let samples = ["", "a", "A", "ab", "b", "proj", "proj2", "é", "z", "日本", "~", " ", "a b"];
    for x in samples {
        for y in samples {
            assert_eq!(str_precedes(x, y), x < y);
        }
    }
    assert!(str_precedes("proj", "proj2"));
    assert!(!str_precedes("proj2", "proj"));
    assert!(!str_precedes("proj", "proj"));
    assert!(str_precedes("Z", "a"));
}

#[test]
fn position_of_finds_the_first_place() {
    let v: Vec<String> = ["a", "b", "c", "b"].iter().map(|s| s.to_string()).collect();
    assert_eq!(position_of(&v, "a"), Some(0));
    assert_eq!(position_of(&v, "b"), Some(1));
    assert_eq!(position_of(&v, "c"), Some(2));
    assert_eq!(position_of(&v, "d"), None);
    assert_eq!(position_of(&Vec::new(), "a"), None);
}

#[test]
fn empty_alias_is_a_fault() {
    let list = list_with(&[]);
    assert_eq!(check_alias(&list, "", None), Err(AliasFault::Empty));
    assert_eq!(validate_alias(&list, "", None), Err(AliasFault::Empty));
    assert_eq!(validate_alias(&list, "   \t", None), Err(AliasFault::Empty));
}

#[test]
fn path_separator_in_alias_is_a_fault() {
    let list = list_with(&[]);
    assert_eq!(validate_alias(&list, "a/b", None), Err(AliasFault::PathSeparator));
    assert_eq!(validate_alias(&list, "a\\b", None), Err(AliasFault::PathSeparator));
    assert_eq!(validate_alias(&list, " / ", None), Err(AliasFault::PathSeparator));
    assert_eq!(check_alias(&list, "c:\\", None), Err(AliasFault::PathSeparator));
}

#[test]
fn taken_alias_is_a_fault() {
    let list = list_with(&["proj"]);
    assert_eq!(validate_alias(&list, "proj", None), Err(AliasFault::Taken));
    assert_eq!(validate_alias(&list, "  proj ", None), Err(AliasFault::Taken));
    assert_eq!(validate_alias(&list, "proj", Some("other")), Err(AliasFault::Taken));
    assert_eq!(validate_alias(&list, "Proj", None), Ok(()));
}

#[test]
fn own_alias_is_not_counted_as_taken() {
    let list = list_with(&["proj", "other"]);
    assert_eq!(validate_alias(&list, "proj", Some("proj")), Ok(()));
    assert_eq!(validate_alias(&list, " proj ", Some("proj")), Ok(()));
    assert_eq!(validate_alias(&list, "other", Some("proj")), Err(AliasFault::Taken));
}

#[test]
fn good_alias_passes() {
    let list = list_with(&["proj"]);
    assert_eq!(validate_alias(&list, "new one", None), Ok(()));
    assert_eq!(check_alias(&list, " proj", None), Ok(()));
}

#[test]
fn empty_is_found_before_separator_and_separator_before_taken() {
    let list = list_with(&["a/b"]);
    assert_eq!(validate_alias(&list, "a/b", None), Err(AliasFault::PathSeparator));
    assert_eq!(validate_alias(&list, " ", None), Err(AliasFault::Empty));
}

#[test]
fn alias_faults_map_to_error_kinds_and_texts() {
    assert_eq!(AliasFault::Empty.kind(), CatalogError::InvalidAlias);
    assert_eq!(AliasFault::PathSeparator.kind(), CatalogError::InvalidAlias);
    assert_eq!(AliasFault::Taken.kind(), CatalogError::DuplicateAlias);
    assert_eq!(AliasFault::Empty.message(), "Alias cannot be empty");
    assert_eq!(AliasFault::PathSeparator.message(), "Alias cannot contain path separators");
    assert_eq!(AliasFault::Taken.message(), "Alias already exists");
}
