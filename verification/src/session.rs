//! The dialogues with the user, as steps that a front end carries out.
//!
//! The catalog decides and the front end acts. To add a bookmark the front
//! end probes the folder, asks for an alias and hands both over. To look
//! through the bookmarks it starts with [`ViewAnswer::Begin`], does what each
//! [`ViewRequest`] asks, and reports back with the matching [`ViewAnswer`]
//! until it is told to finish.

use vstd::prelude::*;
use vstd::string::StringExecFns;
use crate::alias::alias_fault;
use crate::alias::check_alias;
use crate::alias::trim;
use crate::alias::trimmed;
use crate::bookmark::Bookmark;
use crate::bookmark::BookmarkList;
use crate::bookmark::BookmarkListView;
use crate::bookmark::BookmarkView;
use crate::clock::current_time;
use crate::clock::Timestamp;
use crate::error::CatalogError;
use crate::text::names;

verus! {

/// The line that stands for a bookmark in the menu: its alias, an arrow, its folder.
pub open spec fn menu_line(bookmark: BookmarkView) -> Seq<char> {
    bookmark.alias + " -> "@ + bookmark.folder_path
}

/// The menu of a catalog: one line for each bookmark, in the order of the aliases.
pub open spec fn menu(list: BookmarkListView) -> Seq<Seq<char>> {
    Seq::new(list.alias_order.len(), |i: int| menu_line(list.alias_index[list.alias_order[i]]))
}

/// The lines of the menu from which the user picks a bookmark.
pub fn menu_items(list: &BookmarkList) -> (items: Vec<String>)
    requires
        list.wf(),
    ensures
        names(items@) == menu(list@),
{
    let aliases = list.get_aliases();
    let mut items: Vec<String> = Vec::new();
    let mut i: usize = 0;
    while i < aliases.len()
        invariant
            i <= aliases.len(),
            list.wf(),
            names(aliases@) == list@.alias_order,
            items.len() == i,
            forall|j: int| 0 <= j < i ==> (#[trigger] items@[j])@ == menu(list@)[j],
        decreases aliases.len() - i,
    {
        proof {
            assert(names(aliases@)[i as int] == aliases@[i as int]@);
            assert(list@.alias_order.to_set().contains(list@.alias_order[i as int]));
        }
        if let Some(bookmark) = list.get_bookmark(aliases[i].as_str()) {
            let mut line = aliases[i].clone();
            line.append(" -> ");
            line.append(bookmark.get_folder_path());
            items.push(line);
        }
        i += 1;
    }
    proof {
        assert(names(items@) =~= menu(list@));
    }
    items
}

/// What is wrong with the folder that was to be bookmarked.
#[derive(Clone, Copy, Debug, PartialEq, Eq, Structural)]
pub enum FolderFault {
    /// There is nothing at the path.
    Missing,
    /// What is at the path is not a directory.
    NotADirectory,
    /// The canonical path cannot be written as text.
    NotText,
}

impl FolderFault {
    /// The kind of error that the fault amounts to.
    pub fn kind(self) -> (e: CatalogError)
        ensures
            e == CatalogError::InvalidPath,
    {
        CatalogError::InvalidPath
    }

    /// The text that tells the user what is wrong.
    pub open spec fn spec_message(self) -> Seq<char> {
        match self {
            FolderFault::Missing => "Current directory does not exist"@,
            FolderFault::NotADirectory => "Current path is not a directory"@,
            FolderFault::NotText => "Path contains invalid UTF-8 characters"@,
        }
    }

    /// The text that tells the user what is wrong.
    pub fn message(self) -> (text: &'static str)
        ensures
            text@ == self.spec_message(),
    {
        match self {
            FolderFault::Missing => "Current directory does not exist",
            FolderFault::NotADirectory => "Current path is not a directory",
            FolderFault::NotText => "Path contains invalid UTF-8 characters",
        }
    }
}

/// What is wrong with a folder of which the front end found out whether it
/// exists, whether it is a directory, and whether its canonical path can be
/// written as text: the first of the three that fails, if any does.
pub open spec fn folder_fault(exists_on_disk: bool, is_dir: bool, has_text: bool) -> Option<
    FolderFault,
> {
    if !exists_on_disk {
        Some(FolderFault::Missing)
    } else if !is_dir {
        Some(FolderFault::NotADirectory)
    } else if !has_text {
        Some(FolderFault::NotText)
    } else {
        None
    }
}

/// The folder to bookmark, from what the front end found out about it:
/// whether it exists, whether it is a directory, and its canonical path where
/// that can be written as text.
pub fn resolve_folder(exists_on_disk: bool, is_dir: bool, canonical: Option<String>) -> (r: Result<
    String,
    FolderFault,
>)
    ensures
        match folder_fault(exists_on_disk, is_dir, canonical is Some) {
            Some(fault) => r == Err::<String, FolderFault>(fault),
            None => r == Ok::<String, FolderFault>(canonical->0),
        },
{
    if !exists_on_disk {
        return Err(FolderFault::Missing);
    }
    if !is_dir {
        return Err(FolderFault::NotADirectory);
    }
    match canonical {
        Some(path) => Ok(path),
        None => Err(FolderFault::NotText),
    }
}

/// The bookmark that the front end's answers describe.
pub open spec fn new_bookmark(input: Seq<char>, folder_path: Seq<char>, now: Timestamp) -> BookmarkView {
    BookmarkView { alias: trimmed(input), folder_path, created_at: now, last_accessed: None }
}

/// Files a bookmark for `folder_path`, made at `now`, under the alias that
/// the user typed, without the white space around it. An alias that will not
/// do is refused and nothing changes. The alias as it was stored comes back.
pub fn add_bookmark_at(
    list: &mut BookmarkList,
    folder_path: String,
    input: &str,
    now: Timestamp,
) -> (r: Result<String, CatalogError>)
    requires
        old(list).wf(),
    ensures
        final(list).wf(),
        match alias_fault(old(list)@, trimmed(input@), None) {
            Some(fault) => r == Err::<String, CatalogError>(fault.kind()) && final(list)@ == old(
                list,
            )@,
            None => r matches Ok(alias) && alias@ == trimmed(input@) && final(list)@ == old(
                list,
            )@.insert(new_bookmark(input@, folder_path@, now)),
        },
{
    let alias = trim(input);
    match check_alias(list, alias, None) {
        Err(fault) => Err(fault.kind()),
        Ok(_) => {
            match list.insert_bookmark(Bookmark::new(alias.to_owned(), folder_path, now)) {
                Ok(_) => Ok(alias.to_owned()),
                Err(e) => Err(e),
            }
        },
    }
}

/// Files a bookmark for `folder_path`, made now, under the alias that the
/// user typed. See [`add_bookmark_at`]; the instant is read from the system
/// clock once the alias has been found good.
pub fn add_bookmark(list: &mut BookmarkList, folder_path: String, input: &str) -> (r: Result<
    String,
    CatalogError,
>)
    requires
        old(list).wf(),
    ensures
        final(list).wf(),
        match alias_fault(old(list)@, trimmed(input@), None) {
            Some(fault) => r == Err::<String, CatalogError>(fault.kind()) && final(list)@ == old(
                list,
            )@,
            None => r matches Ok(alias) && alias@ == trimmed(input@) && exists|now: Timestamp|
                final(list)@ == old(list)@.insert(
                    #[trigger] new_bookmark(input@, folder_path@, now),
                ),
        },
{
    match check_alias(list, trim(input), None) {
        Err(fault) => Err(fault.kind()),
        Ok(_) => {
            let now = current_time();
            add_bookmark_at(list, folder_path, input, now)
        },
    }
}

/// What the front end reports back while the user looks through the bookmarks.
#[derive(Debug, PartialEq, Eq)]
pub enum ViewAnswer {
    /// The dialogue starts.
    Begin,
    /// The user picked the line at `selection` of the menu.
    BookmarkPicked { selection: usize },
    /// Whether the folder of the bookmark `alias` was found on disk.
    FolderChecked { alias: String, found: bool },
    /// What the user picked when asked whether to remove the bookmark `alias`,
    /// whose folder is gone: 0 for yes.
    RemovalAnswered { alias: String, selection: usize },
    /// Which action the user picked for the bookmark `alias`.
    ActionPicked { alias: String, selection: usize },
    /// What the user typed as the new alias of the bookmark `alias`.
    AliasEntered { alias: String, input: String },
}

/// A [`ViewAnswer`] as plain values.
pub enum ViewAnswerView {
    Begin,
    BookmarkPicked { selection: usize },
    FolderChecked { alias: Seq<char>, found: bool },
    RemovalAnswered { alias: Seq<char>, selection: usize },
    ActionPicked { alias: Seq<char>, selection: usize },
    AliasEntered { alias: Seq<char>, input: Seq<char> },
}

impl View for ViewAnswer {
    type V = ViewAnswerView;

    open spec fn view(&self) -> ViewAnswerView {
        match *self {
            ViewAnswer::Begin => ViewAnswerView::Begin,
            ViewAnswer::BookmarkPicked { selection } => ViewAnswerView::BookmarkPicked {
                selection,
            },
            ViewAnswer::FolderChecked { alias, found } => ViewAnswerView::FolderChecked {
                alias: alias@,
                found,
            },
            ViewAnswer::RemovalAnswered { alias, selection } => ViewAnswerView::RemovalAnswered {
                alias: alias@,
                selection,
            },
            ViewAnswer::ActionPicked { alias, selection } => ViewAnswerView::ActionPicked {
                alias: alias@,
                selection,
            },
            ViewAnswer::AliasEntered { alias, input } => ViewAnswerView::AliasEntered {
                alias: alias@,
                input: input@,
            },
        }
    }
}

/// How the dialogue ended.
#[derive(Debug, PartialEq, Eq)]
pub enum ViewOutcome {
    /// There is no bookmark to show.
    NoBookmarks,
    /// Nothing was done to the catalog.
    Unchanged,
    /// The bookmark `alias` was taken out.
    Removed { alias: String },
    /// The folder `path` is to be opened in the terminal; the access was recorded.
    Opened { path: String },
    /// The folder `path` is to be shown in the file manager.
    ShowFolder { path: String },
    /// The bookmark `from` is now filed under `to`.
    Renamed { from: String, to: String },
    /// The dialogue cannot go on.
    Failed(CatalogError),
}

/// A [`ViewOutcome`] as plain values.
pub enum ViewOutcomeView {
    NoBookmarks,
    Unchanged,
    Removed { alias: Seq<char> },
    Opened { path: Seq<char> },
    ShowFolder { path: Seq<char> },
    Renamed { from: Seq<char>, to: Seq<char> },
    Failed(CatalogError),
}

impl View for ViewOutcome {
    type V = ViewOutcomeView;

    open spec fn view(&self) -> ViewOutcomeView {
        match *self {
            ViewOutcome::NoBookmarks => ViewOutcomeView::NoBookmarks,
            ViewOutcome::Unchanged => ViewOutcomeView::Unchanged,
            ViewOutcome::Removed { alias } => ViewOutcomeView::Removed { alias: alias@ },
            ViewOutcome::Opened { path } => ViewOutcomeView::Opened { path: path@ },
            ViewOutcome::ShowFolder { path } => ViewOutcomeView::ShowFolder { path: path@ },
            ViewOutcome::Renamed { from, to } => ViewOutcomeView::Renamed { from: from@, to: to@ },
            ViewOutcome::Failed(e) => ViewOutcomeView::Failed(e),
        }
    }
}

impl ViewOutcomeView {
    /// Whether the catalog has to be written out again.
    pub open spec fn changed(self) -> bool {
        self is Removed || self is Opened || self is Renamed
    }
}

impl ViewOutcome {
    /// Whether the catalog has to be written out again.
    pub fn changed(&self) -> (r: bool)
        ensures
            r == self@.changed(),
    {
        match self {
            ViewOutcome::Removed { .. } => true,
            ViewOutcome::Opened { .. } => true,
            ViewOutcome::Renamed { .. } => true,
            _ => false,
        }
    }
}

/// What the front end is asked to do next.
#[derive(Debug, PartialEq, Eq)]
pub enum ViewRequest {
    /// Let the user pick one of `items`; answer with `BookmarkPicked`.
    PickBookmark { items: Vec<String> },
    /// Find out whether the folder `path` exists; answer with `FolderChecked`.
    CheckFolder { alias: String, path: String },
    /// Warn that the folder `path` is gone and ask whether to remove the
    /// bookmark, yes (0) or no; answer with `RemovalAnswered`.
    ConfirmRemoval { alias: String, path: String },
    /// Let the user pick one of the four actions, in this order: open in the
    /// terminal, open in the file manager, edit the alias, remove the
    /// bookmark; answer with `ActionPicked`.
    PickAction { alias: String },
    /// Ask for a new alias; answer with `AliasEntered`.
    EnterAlias { alias: String },
    /// The dialogue is over.
    Finish(ViewOutcome),
}

/// A [`ViewRequest`] as plain values.
pub enum ViewRequestView {
    PickBookmark { items: Seq<Seq<char>> },
    CheckFolder { alias: Seq<char>, path: Seq<char> },
    ConfirmRemoval { alias: Seq<char>, path: Seq<char> },
    PickAction { alias: Seq<char> },
    EnterAlias { alias: Seq<char> },
    Finish(ViewOutcomeView),
}

impl View for ViewRequest {
    type V = ViewRequestView;

    open spec fn view(&self) -> ViewRequestView {
        match *self {
            ViewRequest::PickBookmark { items } => ViewRequestView::PickBookmark {
                items: names(items@),
            },
            ViewRequest::CheckFolder { alias, path } => ViewRequestView::CheckFolder {
                alias: alias@,
                path: path@,
            },
            ViewRequest::ConfirmRemoval { alias, path } => ViewRequestView::ConfirmRemoval {
                alias: alias@,
                path: path@,
            },
            ViewRequest::PickAction { alias } => ViewRequestView::PickAction { alias: alias@ },
            ViewRequest::EnterAlias { alias } => ViewRequestView::EnterAlias { alias: alias@ },
            ViewRequest::Finish(outcome) => ViewRequestView::Finish(outcome@),
        }
    }
}

/// The request that ends the dialogue because nothing is filed under an alias
/// or at a place of the menu.
pub open spec fn missing() -> ViewRequestView {
    ViewRequestView::Finish(ViewOutcomeView::Failed(CatalogError::NotFound))
}

/// The catalog after the front end gave `answer`, the clock showing `now`.
///
/// Only removing, renaming and opening in the terminal change the catalog.
pub open spec fn view_catalog(
    list: BookmarkListView,
    answer: ViewAnswerView,
    now: Timestamp,
) -> BookmarkListView {
    match answer {
        ViewAnswerView::RemovalAnswered { alias, selection } => if selection == 0 {
            list.remove(alias)
        } else {
            list
        },
        ViewAnswerView::ActionPicked { alias, selection } => if selection == 0 {
            list.touch(alias, now)
        } else if selection == 3 {
            list.remove(alias)
        } else {
            list
        },
        ViewAnswerView::AliasEntered { alias, input } => if alias_fault(
            list,
            trimmed(input),
            Some(alias),
        ) is None {
            list.rename(alias, trimmed(input))
        } else {
            list
        },
        _ => list,
    }
}

/// What the front end is asked to do after it gave `answer`.
pub open spec fn view_request(list: BookmarkListView, answer: ViewAnswerView) -> ViewRequestView {
    match answer {
        ViewAnswerView::Begin => if list.alias_order.len() == 0 {
            ViewRequestView::Finish(ViewOutcomeView::NoBookmarks)
        } else {
            ViewRequestView::PickBookmark { items: menu(list) }
        },
        ViewAnswerView::BookmarkPicked { selection } => if selection < list.alias_order.len() {
            ViewRequestView::CheckFolder {
                alias: list.alias_order[selection as int],
                path: list.alias_index[list.alias_order[selection as int]].folder_path,
            }
        } else {
            missing()
        },
        ViewAnswerView::FolderChecked { alias, found } => if !list.alias_index.contains_key(
            alias,
        ) {
            missing()
        } else if found {
            ViewRequestView::PickAction { alias }
        } else {
            ViewRequestView::ConfirmRemoval { alias, path: list.alias_index[alias].folder_path }
        },
        ViewAnswerView::RemovalAnswered { alias, selection } => if selection == 0 {
            ViewRequestView::Finish(ViewOutcomeView::Removed { alias })
        } else {
            ViewRequestView::Finish(ViewOutcomeView::Unchanged)
        },
        ViewAnswerView::ActionPicked { alias, selection } => if selection == 3 {
            ViewRequestView::Finish(ViewOutcomeView::Removed { alias })
        } else if selection == 2 {
            ViewRequestView::EnterAlias { alias }
        } else if selection > 3 {
            ViewRequestView::Finish(ViewOutcomeView::Unchanged)
        } else if !list.alias_index.contains_key(alias) {
            missing()
        } else if selection == 0 {
            ViewRequestView::Finish(
                ViewOutcomeView::Opened { path: list.alias_index[alias].folder_path },
            )
        } else {
            ViewRequestView::Finish(
                ViewOutcomeView::ShowFolder { path: list.alias_index[alias].folder_path },
            )
        },
        ViewAnswerView::AliasEntered { alias, input } => match alias_fault(
            list,
            trimmed(input),
            Some(alias),
        ) {
            Some(fault) => ViewRequestView::Finish(ViewOutcomeView::Failed(fault.kind())),
            None => match list.rename_error(alias, trimmed(input)) {
                Some(e) => ViewRequestView::Finish(ViewOutcomeView::Failed(e)),
                None => ViewRequestView::Finish(
                    ViewOutcomeView::Renamed { from: alias, to: trimmed(input) },
                ),
            },
        },
    }
}

/// One step of the dialogue, the clock showing `now`: changes the catalog as
/// the answer asks and says what the front end is to do next.
pub fn view_step_at(list: &mut BookmarkList, answer: ViewAnswer, now: Timestamp) -> (request:
    ViewRequest)
    requires
        old(list).wf(),
    ensures
        final(list).wf(),
        final(list)@ == view_catalog(old(list)@, answer@, now),
        request@ == view_request(old(list)@, answer@),
{
    match answer {
        ViewAnswer::Begin => {
            if list.get_aliases().len() == 0 {
                ViewRequest::Finish(ViewOutcome::NoBookmarks)
            } else {
                ViewRequest::PickBookmark { items: menu_items(list) }
            }
        },
        ViewAnswer::BookmarkPicked { selection } => {
            let aliases = list.get_aliases();
            if selection >= aliases.len() {
                return ViewRequest::Finish(ViewOutcome::Failed(CatalogError::NotFound));
            }
            proof {
                assert(names(aliases@)[selection as int] == aliases@[selection as int]@);
                assert(list@.alias_order.to_set().contains(list@.alias_order[selection as int]));
            }
            match list.get_bookmark(aliases[selection].as_str()) {
                None => ViewRequest::Finish(ViewOutcome::Failed(CatalogError::NotFound)),
                Some(bookmark) => ViewRequest::CheckFolder {
                    alias: aliases[selection].clone(),
                    path: bookmark.get_folder_path().to_owned(),
                },
            }
        },
        ViewAnswer::FolderChecked { alias, found } => {
            match list.get_bookmark(alias.as_str()) {
                None => ViewRequest::Finish(ViewOutcome::Failed(CatalogError::NotFound)),
                Some(bookmark) => {
                    if found {
                        ViewRequest::PickAction { alias }
                    } else {
                        let path = bookmark.get_folder_path().to_owned();
                        ViewRequest::ConfirmRemoval { alias, path }
                    }
                },
            }
        },
        ViewAnswer::RemovalAnswered { alias, selection } => {
            if selection == 0 {
                list.remove_bookmark(alias.as_str());
                ViewRequest::Finish(ViewOutcome::Removed { alias })
            } else {
                ViewRequest::Finish(ViewOutcome::Unchanged)
            }
        },
        ViewAnswer::ActionPicked { alias, selection } => {
            if selection == 3 {
                list.remove_bookmark(alias.as_str());
                ViewRequest::Finish(ViewOutcome::Removed { alias })
            } else if selection == 2 {
                ViewRequest::EnterAlias { alias }
            } else if selection > 3 {
                ViewRequest::Finish(ViewOutcome::Unchanged)
            } else {
                let path = match list.get_bookmark(alias.as_str()) {
                    None => {
                        proof {
                            assert(list@.touch(alias@, now) == list@);
                        }
                        return ViewRequest::Finish(ViewOutcome::Failed(CatalogError::NotFound));
                    },
                    Some(bookmark) => bookmark.get_folder_path().to_owned(),
                };
                if selection == 0 {
                    list.set_last_accessed(alias.as_str(), now);
                    ViewRequest::Finish(ViewOutcome::Opened { path })
                } else {
                    ViewRequest::Finish(ViewOutcome::ShowFolder { path })
                }
            }
        },
        ViewAnswer::AliasEntered { alias, input } => {
            let wanted = trim(input.as_str());
            match check_alias(list, wanted, Some(alias.as_str())) {
                Err(fault) => ViewRequest::Finish(ViewOutcome::Failed(fault.kind())),
                Ok(_) => match list.update_alias(alias.as_str(), wanted) {
                    Err(e) => ViewRequest::Finish(ViewOutcome::Failed(e)),
                    Ok(_) => ViewRequest::Finish(
                        ViewOutcome::Renamed { from: alias, to: wanted.to_owned() },
                    ),
                },
            }
        },
    }
}

/// One step of the dialogue. See [`view_step_at`]; the system clock is read
/// where the step records an access, and only there.
pub fn view_step(list: &mut BookmarkList, answer: ViewAnswer) -> (request: ViewRequest)
    requires
        old(list).wf(),
    ensures
        final(list).wf(),
        request@ == view_request(old(list)@, answer@),
        exists|now: Timestamp| final(list)@ == #[trigger] view_catalog(old(list)@, answer@, now),
{
    let opens = match &answer {
        ViewAnswer::ActionPicked { selection, .. } => *selection == 0,
        _ => false,
    };
    let now = if opens {
        current_time()
    } else {
        Timestamp { secs: 0, nanos: 0 }
    };
    view_step_at(list, answer, now)
}

} // verus!
