//! Directory bookmarks and the catalog that keeps them by alias.

use vstd::prelude::*;
use vstd::hash_map::StringHashMap;
use crate::clock::Timestamp;
use crate::clock::current_time;
use crate::error::CatalogError;
use crate::text::ascending;
use crate::text::insert_sorted;
use crate::text::lemma_ascending_of_sorted;
use crate::text::lemma_ascending_with;
use crate::text::lemma_ascending_without;
use crate::text::lemma_sorted_no_duplicates;
use crate::text::names;
use crate::text::remove_name;
use crate::text::strictly_sorted;

verus! {

/// A bookmarked directory.
#[derive(Debug, PartialEq, Eq)]
pub struct Bookmark {
    alias: String,
    folder_path: String,
    created_at: Timestamp,
    last_accessed: Option<Timestamp>,
}

/// What a bookmark holds, as plain values.
pub struct BookmarkView {
    pub alias: Seq<char>,
    pub folder_path: Seq<char>,
    pub created_at: Timestamp,
    pub last_accessed: Option<Timestamp>,
}

impl View for Bookmark {
    type V = BookmarkView;

    closed spec fn view(&self) -> BookmarkView {
        BookmarkView {
            alias: self.alias@,
            folder_path: self.folder_path@,
            created_at: self.created_at,
            last_accessed: self.last_accessed,
        }
    }
}

impl Clone for Bookmark {
    fn clone(&self) -> (r: Self)
        ensures
            r == *self,
    {
        Bookmark {
            alias: self.alias.clone(),
            folder_path: self.folder_path.clone(),
            created_at: self.created_at,
            last_accessed: self.last_accessed,
        }
    }
}

impl Bookmark {
    /// A bookmark that has never been opened.
    pub fn new(alias: String, folder_path: String, created_at: Timestamp) -> (b: Bookmark)
        ensures
            b@ == (BookmarkView {
                alias: alias@,
                folder_path: folder_path@,
                created_at,
                last_accessed: None,
            }),
    {
        Bookmark { alias, folder_path, created_at, last_accessed: None }
    }

    /// A bookmark put together from all four of its parts.
    pub fn from_parts(
        alias: String,
        folder_path: String,
        created_at: Timestamp,
        last_accessed: Option<Timestamp>,
    ) -> (b: Bookmark)
        ensures
            b@ == (BookmarkView { alias: alias@, folder_path: folder_path@, created_at, last_accessed }),
    {
        Bookmark { alias, folder_path, created_at, last_accessed }
    }

    /// The alias under which the bookmark is filed.
    pub fn get_alias(&self) -> (r: &str)
        ensures
            r@ == self@.alias,
    {
        self.alias.as_str()
    }

    /// The absolute path of the bookmarked folder.
    pub fn get_folder_path(&self) -> (r: &str)
        ensures
            r@ == self@.folder_path,
    {
        self.folder_path.as_str()
    }

    /// When the bookmark was made.
    pub fn get_created_at(&self) -> (r: &Timestamp)
        ensures
            *r == self@.created_at,
    {
        &self.created_at
    }

    /// When the bookmark was last opened, if it ever was.
    pub fn get_last_accessed(&self) -> (r: &Option<Timestamp>)
        ensures
            *r == self@.last_accessed,
    {
        &self.last_accessed
    }
}

impl BookmarkView {
    /// The same bookmark under another alias.
    pub open spec fn renamed(self, alias: Seq<char>) -> BookmarkView {
        BookmarkView { alias, ..self }
    }

    /// The same bookmark, last opened at `at`.
    pub open spec fn accessed(self, at: Timestamp) -> BookmarkView {
        BookmarkView { last_accessed: Some(at), ..self }
    }
}

/// The bookmarks of a user: an ascending list of aliases beside a map from
/// alias to bookmark.
pub struct BookmarkList {
    bookmarks: StringHashMap<Bookmark>,
    aliases: Vec<String>,
}

/// The plain values of a list of bookmarks, in the same order.
pub open spec fn bookmark_views(bookmarks: Seq<Bookmark>) -> Seq<BookmarkView> {
    bookmarks.map_values(|b: Bookmark| b@)
}

/// The aliases of a list of bookmarks, in the same order.
pub open spec fn record_aliases(bookmarks: Seq<BookmarkView>) -> Seq<Seq<char>> {
    bookmarks.map_values(|b: BookmarkView| b.alias)
}

/// One change to a bookmark catalog.
pub enum BookmarkOp {
    /// File a bookmark under its alias.
    Insert(BookmarkView),
    /// Take the bookmark of an alias out.
    Remove(Seq<char>),
    /// File the bookmark of the first alias under the second.
    Rename(Seq<char>, Seq<char>),
    /// Record that the bookmark of an alias was opened at an instant.
    Touch(Seq<char>, Timestamp),
}

/// What a bookmark catalog holds, as plain values.
#[verifier::ext_equal]
pub struct BookmarkListView {
    /// The aliases, in the order in which they are listed.
    pub alias_order: Seq<Seq<char>>,
    /// The bookmark that each alias stands for.
    pub alias_index: Map<Seq<char>, BookmarkView>,
}

impl BookmarkListView {
    /// The catalog's invariant: the list is strictly ascending (so no alias
    /// occurs twice), it names exactly the keys of the map, and every
    /// bookmark is filed under its own alias.
    pub open spec fn wf(self) -> bool {
        &&& strictly_sorted(self.alias_order)
        &&& self.alias_order.to_set() == self.alias_index.dom()
        &&& forall|a: Seq<char>| #[trigger]
            self.alias_index.contains_key(a) ==> self.alias_index[a].alias == a
    }

    /// The catalog without any bookmark.
    pub open spec fn empty() -> BookmarkListView {
        BookmarkListView { alias_order: Seq::empty(), alias_index: Map::empty() }
    }

    /// The catalog that holds the bookmarks of `index`, its aliases listed in
    /// ascending order.
    pub open spec fn of(index: Map<Seq<char>, BookmarkView>) -> BookmarkListView {
        BookmarkListView { alias_order: ascending(index.dom()), alias_index: index }
    }

    /// The catalog after an attempt to file `bookmark`: unchanged where its
    /// alias is taken.
    pub open spec fn insert(self, bookmark: BookmarkView) -> BookmarkListView {
        if self.alias_index.contains_key(bookmark.alias) {
            self
        } else {
            BookmarkListView::of(self.alias_index.insert(bookmark.alias, bookmark))
        }
    }

    /// The catalog without `alias` and its bookmark.
    pub open spec fn remove(self, alias: Seq<char>) -> BookmarkListView {
        BookmarkListView {
            alias_order: self.alias_order.remove_value(alias),
            alias_index: self.alias_index.remove(alias),
        }
    }

    /// Why the bookmark of `old_alias` cannot be filed under `new_alias`, if
    /// it cannot. An alias that is taken is refused before a missing one is
    /// noticed, and renaming to the same alias is never refused.
    pub open spec fn rename_error(self, old_alias: Seq<char>, new_alias: Seq<char>) -> Option<
        CatalogError,
    > {
        if old_alias == new_alias {
            None
        } else if self.alias_index.contains_key(new_alias) {
            Some(CatalogError::DuplicateAlias)
        } else if !self.alias_index.contains_key(old_alias) {
            Some(CatalogError::NotFound)
        } else {
            None
        }
    }

    /// The catalog after an attempt to file the bookmark of `old_alias` under
    /// `new_alias`: unchanged where the two are the same or the attempt is
    /// refused.
    pub open spec fn rename(self, old_alias: Seq<char>, new_alias: Seq<char>) -> BookmarkListView {
        if old_alias == new_alias || self.rename_error(old_alias, new_alias) is Some {
            self
        } else {
            BookmarkListView::of(
                self.alias_index.remove(old_alias).insert(
                    new_alias,
                    self.alias_index[old_alias].renamed(new_alias),
                ),
            )
        }
    }

    /// The catalog after the bookmark of `alias`, if there is one, was opened at `at`.
    pub open spec fn touch(self, alias: Seq<char>, at: Timestamp) -> BookmarkListView {
        if self.alias_index.contains_key(alias) {
            BookmarkListView {
                alias_order: self.alias_order,
                alias_index: self.alias_index.insert(alias, self.alias_index[alias].accessed(at)),
            }
        } else {
            self
        }
    }

    /// The bookmarks, in the order of their aliases.
    pub open spec fn records(self) -> Seq<BookmarkView> {
        Seq::new(self.alias_order.len(), |i: int| self.alias_index[self.alias_order[i]])
    }

    /// The catalog after an attempt to file each of `bookmarks` in turn.
    pub open spec fn insert_all(self, bookmarks: Seq<BookmarkView>) -> BookmarkListView
        decreases bookmarks.len(),
    {
        if bookmarks.len() == 0 {
            self
        } else {
            self.insert_all(bookmarks.drop_last()).insert(bookmarks.last())
        }
    }

    /// The catalog that holds exactly `bookmarks`, where no two of them share
    /// an alias; none where two do.
    pub open spec fn restored(bookmarks: Seq<BookmarkView>) -> Option<BookmarkListView> {
        if record_aliases(bookmarks).no_duplicates() {
            Some(BookmarkListView::empty().insert_all(bookmarks))
        } else {
            None
        }
    }

    /// The catalog after one change.
    pub open spec fn apply(self, op: BookmarkOp) -> BookmarkListView {
        match op {
            BookmarkOp::Insert(bookmark) => self.insert(bookmark),
            BookmarkOp::Remove(alias) => self.remove(alias),
            BookmarkOp::Rename(old_alias, new_alias) => self.rename(old_alias, new_alias),
            BookmarkOp::Touch(alias, at) => self.touch(alias, at),
        }
    }

    /// The catalog after a run of changes, the first of them made first.
    pub open spec fn apply_all(self, ops: Seq<BookmarkOp>) -> BookmarkListView
        decreases ops.len(),
    {
        if ops.len() == 0 {
            self
        } else {
            self.apply_all(ops.drop_last()).apply(ops.last())
        }
    }

    /// The empty catalog keeps the invariant.
    pub proof fn lemma_empty_wf()
        ensures
            BookmarkListView::empty().wf(),
    {
        let e = BookmarkListView::empty();
        assert(e.alias_order.to_set() =~= e.alias_index.dom());
    }

    /// Filing a bookmark keeps the invariant.
    pub proof fn lemma_insert_wf(self, bookmark: BookmarkView)
        requires
            self.wf(),
        ensures
            self.insert(bookmark).wf(),
    {
        if !self.alias_index.contains_key(bookmark.alias) {
            assert(!self.alias_order.to_set().contains(bookmark.alias));
            lemma_ascending_with(self.alias_order, bookmark.alias);
            assert(self.alias_index.insert(bookmark.alias, bookmark).dom()
                =~= self.alias_order.to_set().insert(bookmark.alias));
        }
    }

    /// Taking a bookmark out keeps the invariant, and leaves a catalog
    /// without the alias as it was.
    pub proof fn lemma_remove_wf(self, alias: Seq<char>)
        requires
            self.wf(),
        ensures
            self.remove(alias).wf(),
            !self.alias_index.contains_key(alias) ==> self.remove(alias) == self,
    {
        lemma_ascending_without(self.alias_order, alias);
        assert(self.alias_index.remove(alias).dom() =~= self.alias_index.dom().remove(alias));
        if !self.alias_index.contains_key(alias) {
            assert(!self.alias_order.to_set().contains(alias));
            self.alias_order.index_of_first_ensures(alias);
            assert(self.alias_index.remove(alias) =~= self.alias_index);
        }
    }

    /// Renaming keeps the invariant.
    pub proof fn lemma_rename_wf(self, old_alias: Seq<char>, new_alias: Seq<char>)
        requires
            self.wf(),
        ensures
            self.rename(old_alias, new_alias).wf(),
    {
        if old_alias != new_alias && self.rename_error(old_alias, new_alias) is None {
            let without = self.alias_order.remove_value(old_alias);
            lemma_ascending_without(self.alias_order, old_alias);
            assert(!without.contains(new_alias)) by {
                if without.contains(new_alias) {
                    assert(without.to_set().contains(new_alias));
                    assert(self.alias_order.to_set().contains(new_alias));
                }
            }
            lemma_ascending_with(without, new_alias);
            assert(self.rename(old_alias, new_alias).alias_index.dom() =~= without.to_set().insert(
                new_alias,
            ));
        }
    }

    /// Recording an access keeps the invariant.
    pub proof fn lemma_touch_wf(self, alias: Seq<char>, at: Timestamp)
        requires
            self.wf(),
        ensures
            self.touch(alias, at).wf(),
    {
        if self.alias_index.contains_key(alias) {
            assert(self.touch(alias, at).alias_index.dom() =~= self.alias_index.dom());
        }
    }

    /// Filing several bookmarks keeps the invariant, and files nothing under
    /// an alias that none of them has.
    pub proof fn lemma_insert_all_wf(self, bookmarks: Seq<BookmarkView>)
        requires
            self.wf(),
        ensures
            self.insert_all(bookmarks).wf(),
            self.insert_all(bookmarks).alias_index.dom() == self.alias_index.dom().union(
                record_aliases(bookmarks).to_set(),
            ),
        decreases bookmarks.len(),
    {
        let after = self.insert_all(bookmarks);
        let added = record_aliases(bookmarks).to_set();
        if bookmarks.len() == 0 {
            assert(after.alias_index.dom() =~= self.alias_index.dom().union(added));
        } else {
            let earlier = bookmarks.drop_last();
            let mid = self.insert_all(earlier);
            self.lemma_insert_all_wf(earlier);
            mid.lemma_insert_wf(bookmarks.last());
            assert(after.alias_index.dom() =~= self.alias_index.dom().union(added)) by {
                assert forall|a: Seq<char>| after.alias_index.dom().contains(a)
                    <==> self.alias_index.dom().union(added).contains(a) by {
                    if record_aliases(earlier).contains(a) {
                        let k = choose|k: int| 0 <= k < earlier.len() && record_aliases(
                            earlier,
                        )[k] == a;
                        assert(record_aliases(bookmarks)[k] == a);
                    }
                    if record_aliases(bookmarks).contains(a) {
                        let k = choose|k: int| 0 <= k < bookmarks.len() && record_aliases(
                            bookmarks,
                        )[k] == a;
                        if k < earlier.len() {
                            assert(record_aliases(earlier)[k] == a);
                        }
                    }
                    assert(record_aliases(bookmarks)[bookmarks.len() - 1]
                        == bookmarks.last().alias);
                }
            }
        }
    }

    /// Bookmarks with aliases of their own, none of them in use, are all
    /// filed as they are, and what was filed before stays.
    pub proof fn lemma_insert_all_files(self, bookmarks: Seq<BookmarkView>)
        requires
            self.wf(),
            record_aliases(bookmarks).no_duplicates(),
            forall|k: int|
                0 <= k < bookmarks.len() ==> !self.alias_index.contains_key(
                    #[trigger] bookmarks[k].alias,
                ),
        ensures
            forall|k: int|
                0 <= k < bookmarks.len() ==> self.insert_all(bookmarks).alias_index[(
                #[trigger] bookmarks[k]).alias] == bookmarks[k],
            forall|a: Seq<char>| #[trigger]
                self.alias_index.contains_key(a) ==> self.insert_all(bookmarks).alias_index[a]
                    == self.alias_index[a],
        decreases bookmarks.len(),
    {
        if bookmarks.len() > 0 {
            let earlier = bookmarks.drop_last();
            let last = bookmarks.last();
            let mid = self.insert_all(earlier);
            let all = record_aliases(bookmarks);
            assert forall|x: int, y: int|
                0 <= x < earlier.len() && 0 <= y < earlier.len() && x != y implies record_aliases(
                earlier,
            )[x] != record_aliases(earlier)[y] by {
                assert(all[x] != all[y]);
            }
            assert forall|k: int| 0 <= k < earlier.len() implies !self.alias_index.contains_key(
                #[trigger] earlier[k].alias,
            ) by {
                assert(earlier[k] == bookmarks[k]);
            }
            self.lemma_insert_all_files(earlier);
            self.lemma_insert_all_wf(earlier);
            assert(!mid.alias_index.contains_key(last.alias)) by {
                if record_aliases(earlier).contains(last.alias) {
                    let k = choose|k: int| 0 <= k < earlier.len() && record_aliases(earlier)[k]
                        == last.alias;
                    assert(all[k] == all[bookmarks.len() - 1]);
                }
            }
            assert forall|k: int| 0 <= k < bookmarks.len() implies self.insert_all(
                bookmarks,
            ).alias_index[(#[trigger] bookmarks[k]).alias] == bookmarks[k] by {
                if k < earlier.len() {
                    assert(earlier[k] == bookmarks[k]);
                    assert(all[k] != all[bookmarks.len() - 1]);
                }
            }
        }
    }

    /// A catalog that keeps the invariant is the one that `of` makes of its map:
    /// the map alone decides the order of the list.
    pub proof fn lemma_order_determined(self)
        requires
            self.wf(),
        ensures
            self == BookmarkListView::of(self.alias_index),
    {
        lemma_ascending_of_sorted(self.alias_order);
    }
}

impl View for BookmarkList {
    type V = BookmarkListView;

    closed spec fn view(&self) -> BookmarkListView {
        BookmarkListView {
            alias_order: names(self.aliases@),
            alias_index: self.bookmarks@.map_values(|b: Bookmark| b@),
        }
    }
}

impl Clone for BookmarkList {
    /// A catalog of its own with copies of the same bookmarks.
    fn clone(&self) -> (r: Self)
        ensures
            self.wf() ==> r.wf() && r@ == self@,
    {
        let mut bookmarks: StringHashMap<Bookmark> = StringHashMap::new();
        let mut aliases: Vec<String> = Vec::new();
        let mut i: usize = 0;
        while i < self.aliases.len()
            invariant
                i <= self.aliases.len(),
                aliases.len() == i,
                forall|j: int| 0 <= j < i ==> (#[trigger] aliases@[j])@ == self.aliases@[j]@,
                self.wf() ==> forall|a: Seq<char>|
                    bookmarks@.contains_key(a) <==> exists|k: int|
                        0 <= k < i && #[trigger] self@.alias_order[k] == a,
                self.wf() ==> forall|a: Seq<char>| #[trigger]
                    bookmarks@.contains_key(a) ==> bookmarks@[a]@ == self@.alias_index[a],
            decreases self.aliases.len() - i,
        {
            proof {
                assert(self@.alias_order[i as int] == self.aliases@[i as int]@);
                if self.wf() {
                    assert(self@.alias_order.to_set().contains(self@.alias_order[i as int]));
                }
            }
            if let Some(found) = self.bookmarks.get(self.aliases[i].as_str()) {
                bookmarks.insert(self.aliases[i].clone(), found.clone());
            }
            aliases.push(self.aliases[i].clone());
            proof {
                if self.wf() {
                    let added = self@.alias_order[i as int];
                    assert forall|a: Seq<char>| bookmarks@.contains_key(a) <==> exists|k: int|
                        0 <= k < i + 1 && #[trigger] self@.alias_order[k] == a by {
                        if a == added {
                            assert(self@.alias_order[i as int] == a);
                        }
                        if exists|k: int| 0 <= k < i + 1 && #[trigger] self@.alias_order[k] == a {
                            let k = choose|k: int|
                                0 <= k < i + 1 && #[trigger] self@.alias_order[k] == a;
                            if k < i {
                                assert(0 <= k < i && self@.alias_order[k] == a);
                            }
                        }
                    }
                }
            }
            i += 1;
        }
        let r = BookmarkList { bookmarks, aliases };
        proof {
            if self.wf() {
                assert(r@.alias_order =~= self@.alias_order);
                assert(r@.alias_index =~= self@.alias_index) by {
                    assert forall|a: Seq<char>| r@.alias_index.contains_key(a)
                        <==> self@.alias_index.contains_key(a) by {
                        assert(self@.alias_order.to_set().contains(a)
                            <==> self@.alias_order.contains(a));
                        if self@.alias_order.contains(a) {
                            let k = choose|k: int| 0 <= k < self@.alias_order.len()
                                && self@.alias_order[k] == a;
                            assert(0 <= k < i && self@.alias_order[k] == a);
                        }
                    }
                }
            }
        }
        r
    }
}

impl Default for BookmarkList {
    fn default() -> (list: BookmarkList)
        ensures
            list@ == BookmarkListView::empty(),
            list.wf(),
    {
        BookmarkList::new()
    }
}

impl BookmarkList {
    /// Whether the catalog's invariant holds of this value.
    pub open spec fn wf(&self) -> bool {
        self@.wf()
    }

    /// A catalog without any bookmark.
    pub fn new() -> (list: BookmarkList)
        ensures
            list@ == BookmarkListView::empty(),
            list.wf(),
    {
        let list = BookmarkList { bookmarks: StringHashMap::new(), aliases: Vec::new() };
        proof {
            assert(list@.alias_order =~= Seq::empty());
            assert(list@.alias_index =~= Map::empty());
            assert(list@.alias_order.to_set() =~= list@.alias_index.dom());
        }
        list
    }

    /// The aliases in ascending order.
    pub fn get_aliases(&self) -> (r: &Vec<String>)
        ensures
            names(r@) == self@.alias_order,
            self.wf() ==> strictly_sorted(names(r@)),
    {
        &self.aliases
    }

    /// The bookmark filed under `alias`, if there is one.
    pub fn get_bookmark(&self, alias: &str) -> (r: Option<&Bookmark>)
        ensures
            match r {
                Some(b) => self@.alias_index.contains_key(alias@) && b@
                    == self@.alias_index[alias@],
                None => !self@.alias_index.contains_key(alias@),
            },
    {
        self.bookmarks.get(alias)
    }

    /// Files `bookmark` under its alias, unless that alias is taken.
    pub fn insert_bookmark(&mut self, bookmark: Bookmark) -> (r: Result<(), CatalogError>)
        requires
            old(self).wf(),
        ensures
            final(self).wf(),
            final(self)@ == old(self)@.insert(bookmark@),
            match r {
                Ok(_) => !old(self)@.alias_index.contains_key(bookmark@.alias),
                Err(e) => e == CatalogError::DuplicateAlias && old(self)@.alias_index.contains_key(
                    bookmark@.alias,
                ),
            },
    {
        if self.bookmarks.contains_key(bookmark.alias.as_str()) {
            return Err(CatalogError::DuplicateAlias);
        }
        let key = bookmark.alias.clone();
        proof {
            assert(!self@.alias_order.to_set().contains(key@));
        }
        insert_sorted(&mut self.aliases, bookmark.alias.clone());
        self.bookmarks.insert(key, bookmark);
        proof {
            let expected = old(self)@.insert(bookmark@);
            assert(self@.alias_index =~= expected.alias_index);
            assert(self@.alias_order.to_set() =~= self@.alias_index.dom());
            lemma_ascending_of_sorted(self@.alias_order);
        }
        Ok(())
    }

    /// Takes the bookmark filed under `alias` out of the catalog, if there is one.
    pub fn remove_bookmark(&mut self, alias: &str)
        requires
            old(self).wf(),
        ensures
            final(self).wf(),
            final(self)@ == old(self)@.remove(alias@),
    {
        proof {
            lemma_sorted_no_duplicates(self@.alias_order);
            old(self)@.lemma_remove_wf(alias@);
        }
        self.bookmarks.remove(alias);
        remove_name(&mut self.aliases, alias);
        proof {
            assert(self@.alias_index =~= old(self)@.alias_index.remove(alias@));
        }
    }

    /// Files the bookmark of `old_alias` under `new_alias` instead.
    ///
    /// Renaming to the same alias changes nothing and succeeds, whether or not
    /// the alias is in use. Otherwise an alias that is taken is refused before
    /// a missing one is noticed; a refusal changes nothing.
    pub fn update_alias(&mut self, old_alias: &str, new_alias: &str) -> (r: Result<
        (),
        CatalogError,
    >)
        requires
            old(self).wf(),
        ensures
            final(self).wf(),
            final(self)@ == old(self)@.rename(old_alias@, new_alias@),
            match old(self)@.rename_error(old_alias@, new_alias@) {
                Some(e) => r == Err::<(), CatalogError>(e),
                None => r is Ok,
            },
    {
        let new_key = new_alias.to_owned();
        if old_alias.to_owned() == new_key {
            return Ok(());
        }
        if self.bookmarks.contains_key(new_alias) {
            return Err(CatalogError::DuplicateAlias);
        }
        let moved = match self.bookmarks.get(old_alias) {
            None => {
                return Err(CatalogError::NotFound);
            },
            Some(found) => Bookmark {
                alias: new_alias.to_owned(),
                folder_path: found.folder_path.clone(),
                created_at: found.created_at,
                last_accessed: found.last_accessed,
            },
        };
        proof {
            lemma_sorted_no_duplicates(self@.alias_order);
            assert(!self@.alias_order.to_set().contains(new_alias@));
        }
        self.bookmarks.remove(old_alias);
        self.bookmarks.insert(new_alias.to_owned(), moved);
        remove_name(&mut self.aliases, old_alias);
        proof {
            assert(!names(self.aliases@).to_set().contains(new_alias@));
        }
        insert_sorted(&mut self.aliases, new_key);
        proof {
            let expected = old(self)@.rename(old_alias@, new_alias@);
            assert(self@.alias_index =~= expected.alias_index);
            assert(self@.alias_order.to_set() =~= self@.alias_index.dom());
            lemma_ascending_of_sorted(self@.alias_order);
        }
        Ok(())
    }

    /// Records that the bookmark filed under `alias` was last opened at `at`.
    /// Without such a bookmark nothing changes.
    pub fn set_last_accessed(&mut self, alias: &str, at: Timestamp)
        requires
            old(self).wf(),
        ensures
            final(self).wf(),
            final(self)@ == old(self)@.touch(alias@, at),
    {
        let touched = match self.bookmarks.get(alias) {
            None => {
                return ;
            },
            Some(found) => Bookmark {
                alias: found.alias.clone(),
                folder_path: found.folder_path.clone(),
                created_at: found.created_at,
                last_accessed: Some(at),
            },
        };
        self.bookmarks.insert(alias.to_owned(), touched);
        proof {
            let expected = old(self)@.touch(alias@, at);
            assert(self@.alias_index =~= expected.alias_index);
            old(self)@.lemma_touch_wf(alias@, at);
        }
    }

    /// Records that the bookmark filed under `alias` is being opened now.
    /// Without such a bookmark nothing changes.
    ///
    /// The instant is read from the system clock, so the contract says what
    /// holds whichever instant that is.
    pub fn update_last_accessed(&mut self, alias: &str)
        requires
            old(self).wf(),
        ensures
            final(self).wf(),
            exists|at: Timestamp| final(self)@ == #[trigger] old(self)@.touch(alias@, at),
    {
        let at = current_time();
        self.set_last_accessed(alias, at);
    }

    /// Copies of the bookmarks, in the order of their aliases.
    pub fn bookmarks(&self) -> (r: Vec<Bookmark>)
        requires
            self.wf(),
        ensures
            bookmark_views(r@) == self@.records(),
    {
        let mut r: Vec<Bookmark> = Vec::new();
        let mut i: usize = 0;
        while i < self.aliases.len()
            invariant
                i <= self.aliases.len(),
                self.wf(),
                r.len() == i,
                forall|j: int| 0 <= j < i ==> (#[trigger] r@[j])@ == self@.records()[j],
            decreases self.aliases.len() - i,
        {
            proof {
                assert(self@.alias_order[i as int] == self.aliases@[i as int]@);
                assert(self@.alias_order.to_set().contains(self@.alias_order[i as int]));
            }
            if let Some(found) = self.bookmarks.get(self.aliases[i].as_str()) {
                r.push(found.clone());
            }
            i += 1;
        }
        proof {
            assert(bookmark_views(r@) =~= self@.records());
        }
        r
    }

    /// The catalog that holds exactly `bookmarks`, in whatever order they
    /// come. Two bookmarks with one alias cannot both be kept: such a list is
    /// refused as unreadable.
    pub fn from_bookmarks(bookmarks: Vec<Bookmark>) -> (r: Result<BookmarkList, CatalogError>)
        ensures
            match r {
                Ok(list) => list.wf() && BookmarkListView::restored(bookmark_views(bookmarks@))
                    == Some(list@),
                Err(e) => e == CatalogError::DecodeError && BookmarkListView::restored(
                    bookmark_views(bookmarks@),
                ) is None,
            },
    {
        let ghost all = bookmark_views(bookmarks@);
        let mut list = BookmarkList::new();
        let mut i: usize = 0;
        proof {
            assert(all.take(0) =~= Seq::empty());
        }
        while i < bookmarks.len()
            invariant
                i <= bookmarks.len(),
                all == bookmark_views(bookmarks@),
                list.wf(),
                list@ == BookmarkListView::empty().insert_all(all.take(i as int)),
                record_aliases(all.take(i as int)).no_duplicates(),
            decreases bookmarks.len() - i,
        {
            proof {
                assert(all.take(i + 1).drop_last() =~= all.take(i as int));
                assert(all.take(i + 1).last() == all[i as int]);
                BookmarkListView::lemma_empty_wf();
                BookmarkListView::empty().lemma_insert_all_wf(all.take(i as int));
                assert(BookmarkListView::empty().alias_index.dom().union(
                    record_aliases(all.take(i as int)).to_set(),
                ) =~= record_aliases(all.take(i as int)).to_set());
            }
            match list.insert_bookmark(bookmarks[i].clone()) {
                Err(_) => {
                    proof {
                        let seen = record_aliases(all.take(i as int));
                        let a = all[i as int].alias;
                        assert(seen.to_set().contains(a));
                        let k = choose|k: int| 0 <= k < seen.len() && seen[k] == a;
                        assert(record_aliases(all)[k] == a);
                        assert(record_aliases(all)[i as int] == a);
                    }
                    return Err(CatalogError::DecodeError);
                },
                Ok(_) => {
                    proof {
                        let seen = record_aliases(all.take(i as int));
                        let now_seen = record_aliases(all.take(i + 1));
                        let a = all[i as int].alias;
                        assert(now_seen =~= seen.push(a));
                        assert(!seen.to_set().contains(a));
                        assert forall|x: int, y: int|
                            0 <= x < now_seen.len() && 0 <= y < now_seen.len() && x
                                != y implies now_seen[x] != now_seen[y] by {
                            if x < seen.len() {
                                assert(seen.contains(seen[x]));
                            }
                            if y < seen.len() {
                                assert(seen.contains(seen[y]));
                            }
                        }
                    }
                },
            }
            i += 1;
        }
        proof {
            assert(all.take(i as int) =~= all);
        }
        Ok(list)
    }

    /// Whether a bookmark is filed under `alias`.
    pub fn alias_exists(&self, alias: &str) -> (r: bool)
        ensures
            r == self@.alias_index.contains_key(alias@),
    {
        self.bookmarks.contains_key(alias)
    }

    /// Whether the catalog holds no bookmark.
    pub fn is_empty(&self) -> (r: bool)
        ensures
            r == (forall|a: Seq<char>| !self@.alias_index.contains_key(a)),
    {
        let r = self.bookmarks.is_empty();
        proof {
            if r {
                assert forall|a: Seq<char>| !self@.alias_index.contains_key(a) by {
                    assert(!self.bookmarks@.dom().contains(a));
                }
            } else {
                if forall|a: Seq<char>| !self@.alias_index.contains_key(a) {
                    assert forall|a: Seq<char>| !self.bookmarks@.dom().contains(a) by {
                        assert(!self@.alias_index.contains_key(a));
                    }
                    assert(self.bookmarks@.dom() =~= Set::<Seq<char>>::empty());
                }
            }
        }
        r
    }
}

} // verus!
