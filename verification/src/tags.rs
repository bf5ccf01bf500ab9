//! Tagged files and the catalog that keeps them by tag.

use vstd::prelude::*;
use vstd::hash_map::StringHashMap;
use crate::clock::Timestamp;
use crate::error::CatalogError;
use crate::text::names;
use crate::text::position_of;
use crate::text::remove_name;

verus! {

/// A file as it is filed under a tag.
///
/// Every tag that a file belongs to holds a copy of its own; changing one
/// copy leaves the others as they are.
#[derive(Debug, PartialEq, Eq)]
pub struct FileRecord {
    name: String,
    path: String,
    created_at: Timestamp,
    tags: Vec<String>,
}

/// What a file record holds, as plain values.
pub struct FileRecordView {
    pub name: Seq<char>,
    pub path: Seq<char>,
    pub created_at: Timestamp,
    /// The tags that the record was filed with, in the order in which they were listed.
    pub tags: Seq<Seq<char>>,
}

impl View for FileRecord {
    type V = FileRecordView;

    closed spec fn view(&self) -> FileRecordView {
        FileRecordView {
            name: self.name@,
            path: self.path@,
            created_at: self.created_at,
            tags: names(self.tags@),
        }
    }
}

impl Clone for FileRecord {
    fn clone(&self) -> (r: Self)
        ensures
            r@ == self@,
    {
        let tags = self.tags.clone();
        proof {
            assert(names(tags@) =~= names(self.tags@));
        }
        FileRecord {
            name: self.name.clone(),
            path: self.path.clone(),
            created_at: self.created_at,
            tags,
        }
    }
}

impl FileRecord {
    /// A record of the file `name` at `path`, to be filed under each of `tags`.
    pub fn new(name: String, path: String, created_at: Timestamp, tags: Vec<String>) -> (r:
        FileRecord)
        ensures
            r@ == (FileRecordView {
                name: name@,
                path: path@,
                created_at,
                tags: names(tags@),
            }),
    {
        FileRecord { name, path, created_at, tags }
    }

    /// The name of the file.
    pub fn get_name(&self) -> (r: &str)
        ensures
            r@ == self@.name,
    {
        self.name.as_str()
    }

    /// The absolute path of the file.
    pub fn get_path(&self) -> (r: &str)
        ensures
            r@ == self@.path,
    {
        self.path.as_str()
    }

    /// When the record was made.
    pub fn get_created_at(&self) -> (r: &Timestamp)
        ensures
            *r == self@.created_at,
    {
        &self.created_at
    }

    /// The tags that the record was filed with, as they were listed.
    pub fn get_tags(&self) -> (r: &Vec<String>)
        ensures
            names(r@) == self@.tags,
    {
        &self.tags
    }
}

/// The plain values of a list of file records, in the same order.
pub open spec fn file_views(files: Seq<FileRecord>) -> Seq<FileRecordView> {
    files.map_values(|f: FileRecord| f@)
}

/// The file names of a bucket, in the same order.
pub open spec fn file_names(bucket: Seq<FileRecordView>) -> Seq<Seq<char>> {
    bucket.map_values(|f: FileRecordView| f.name)
}

/// The bucket without its first file called `name`; the bucket itself where
/// no file is called so.
pub open spec fn without_file(bucket: Seq<FileRecordView>, name: Seq<char>) -> Seq<
    FileRecordView,
> {
    match file_names(bucket).index_of_first(name) {
        Some(i) => bucket.remove(i),
        None => bucket,
    }
}

/// The plain values of a list of buckets, in the same order.
pub open spec fn bucket_views(buckets: Seq<Vec<FileRecord>>) -> Seq<Seq<FileRecordView>> {
    buckets.map_values(|files: Vec<FileRecord>| file_views(files@))
}

/// One change to a tag catalog.
pub enum TagOp {
    /// File a record under each of its tags.
    InsertFile(FileRecordView),
    /// Take a tag out, with all that is filed under it.
    RemoveTag(Seq<char>),
    /// Take the file of the second name out of the bucket of the first.
    RemoveFile(Seq<char>, Seq<char>),
}

/// What a tag catalog holds, as plain values.
#[verifier::ext_equal]
pub struct TagCatalogView {
    /// The tags, in the order in which they were first used.
    pub tag_order: Seq<Seq<char>>,
    /// The bucket of each tag: the files filed under it, oldest first.
    pub tag_index: Map<Seq<char>, Seq<FileRecordView>>,
}

impl TagCatalogView {
    /// The catalog's invariant: no tag is listed twice, the list names
    /// exactly the keys of the map, no bucket holds two files of one name,
    /// and no bucket is empty.
    pub open spec fn wf(self) -> bool {
        &&& self.tag_order.no_duplicates()
        &&& self.tag_order.to_set() == self.tag_index.dom()
        &&& forall|t: Seq<char>| #[trigger]
            self.tag_index.contains_key(t) ==> file_names(self.tag_index[t]).no_duplicates()
        &&& forall|t: Seq<char>| #[trigger]
            self.tag_index.contains_key(t) ==> self.tag_index[t].len() > 0
    }

    /// The catalog without any tag.
    pub open spec fn empty() -> TagCatalogView {
        TagCatalogView { tag_order: Seq::empty(), tag_index: Map::empty() }
    }

    /// Whether a file called `name` is filed under `tag`.
    pub open spec fn has_file(self, tag: Seq<char>, name: Seq<char>) -> bool {
        self.tag_index.contains_key(tag) && file_names(self.tag_index[tag]).contains(name)
    }

    /// The catalog after `record` was filed under the one tag `tag`: unchanged
    /// where the tag already holds a file of that name, else with the record
    /// at the end of the tag's bucket, the tag being listed last if it is new.
    pub open spec fn file_under(self, tag: Seq<char>, record: FileRecordView) -> TagCatalogView {
        if self.has_file(tag, record.name) {
            self
        } else if self.tag_index.contains_key(tag) {
            TagCatalogView {
                tag_order: self.tag_order,
                tag_index: self.tag_index.insert(tag, self.tag_index[tag].push(record)),
            }
        } else {
            TagCatalogView {
                tag_order: self.tag_order.push(tag),
                tag_index: self.tag_index.insert(tag, seq![record]),
            }
        }
    }

    /// The catalog after `record` was filed under each of `tags` in turn.
    pub open spec fn file_under_all(
        self,
        tags: Seq<Seq<char>>,
        record: FileRecordView,
    ) -> TagCatalogView
        decreases tags.len(),
    {
        if tags.len() == 0 {
            self
        } else {
            self.file_under_all(tags.drop_last(), record).file_under(tags.last(), record)
        }
    }

    /// Those of `tags`, in turn, under which filing `record` changed nothing
    /// because a file of its name was there already.
    pub open spec fn skipped_tags(
        self,
        tags: Seq<Seq<char>>,
        record: FileRecordView,
    ) -> Seq<Seq<char>>
        decreases tags.len(),
    {
        if tags.len() == 0 {
            Seq::empty()
        } else {
            let earlier = self.skipped_tags(tags.drop_last(), record);
            if self.file_under_all(tags.drop_last(), record).has_file(tags.last(), record.name) {
                earlier.push(tags.last())
            } else {
                earlier
            }
        }
    }

    /// The catalog after `record` was filed under each of its own tags.
    pub open spec fn insert_file(self, record: FileRecordView) -> TagCatalogView {
        self.file_under_all(record.tags, record)
    }

    /// The catalog without `tag` and its bucket.
    pub open spec fn remove_tag(self, tag: Seq<char>) -> TagCatalogView {
        TagCatalogView {
            tag_order: self.tag_order.remove_value(tag),
            tag_index: self.tag_index.remove(tag),
        }
    }

    /// The catalog after the file called `name` was taken out of the bucket of
    /// `tag`; a bucket left empty goes, and its tag with it.
    pub open spec fn remove_file(self, tag: Seq<char>, name: Seq<char>) -> TagCatalogView {
        if !self.has_file(tag, name) {
            self
        } else {
            let rest = without_file(self.tag_index[tag], name);
            if rest.len() == 0 {
                self.remove_tag(tag)
            } else {
                TagCatalogView {
                    tag_order: self.tag_order,
                    tag_index: self.tag_index.insert(tag, rest),
                }
            }
        }
    }

    /// The buckets, in the order of their tags.
    pub open spec fn buckets(self) -> Seq<Seq<FileRecordView>> {
        Seq::new(self.tag_order.len(), |i: int| self.tag_index[self.tag_order[i]])
    }

    /// The catalog that lists `tags` and files the bucket at each place of
    /// `buckets` under the tag at the same place.
    pub open spec fn paired(tags: Seq<Seq<char>>, buckets: Seq<Seq<FileRecordView>>) -> TagCatalogView {
        TagCatalogView {
            tag_order: tags,
            tag_index: Map::new(
                |t: Seq<char>| tags.contains(t),
                |t: Seq<char>| buckets[tags.index_of(t)],
            ),
        }
    }

    /// The catalog made of `tags` and their `buckets`, where there is one
    /// bucket for each tag and the invariant holds of the pairing; none otherwise.
    pub open spec fn restored(tags: Seq<Seq<char>>, buckets: Seq<Seq<FileRecordView>>) -> Option<
        TagCatalogView,
    > {
        if tags.len() == buckets.len() && TagCatalogView::paired(tags, buckets).wf() {
            Some(TagCatalogView::paired(tags, buckets))
        } else {
            None
        }
    }

    /// The catalog after one change.
    pub open spec fn apply(self, op: TagOp) -> TagCatalogView {
        match op {
            TagOp::InsertFile(record) => self.insert_file(record),
            TagOp::RemoveTag(tag) => self.remove_tag(tag),
            TagOp::RemoveFile(tag, name) => self.remove_file(tag, name),
        }
    }

    /// The catalog after a run of changes, the first of them made first.
    pub open spec fn apply_all(self, ops: Seq<TagOp>) -> TagCatalogView
        decreases ops.len(),
    {
        if ops.len() == 0 {
            self
        } else {
            self.apply_all(ops.drop_last()).apply(ops.last())
        }
    }

    /// Filing a record under one tag keeps the invariant.
    pub proof fn lemma_file_under_wf(self, tag: Seq<char>, record: FileRecordView)
        requires
            self.wf(),
        ensures
            self.file_under(tag, record).wf(),
    {
        let after = self.file_under(tag, record);
        if self.has_file(tag, record.name) {
        } else if self.tag_index.contains_key(tag) {
            assert(after.tag_index.dom() =~= self.tag_index.dom());
            let old_names = file_names(self.tag_index[tag]);
            let new_names = file_names(after.tag_index[tag]);
            assert(new_names =~= old_names.push(record.name));
            assert forall|a: int, b: int|
                0 <= a < new_names.len() && 0 <= b < new_names.len() && a
                    != b implies new_names[a] != new_names[b] by {
                if a < old_names.len() {
                    assert(old_names.contains(old_names[a]));
                }
                if b < old_names.len() {
                    assert(old_names.contains(old_names[b]));
                }
            }
            assert forall|t: Seq<char>| #[trigger] after.tag_index.contains_key(t) implies file_names(
                after.tag_index[t],
            ).no_duplicates() && after.tag_index[t].len() > 0 by {
                if t != tag {
                    assert(self.tag_index.contains_key(t));
                }
            }
        } else {
            assert(!self.tag_order.to_set().contains(tag));
            assert forall|a: int, b: int|
                0 <= a < after.tag_order.len() && 0 <= b < after.tag_order.len() && a
                    != b implies after.tag_order[a] != after.tag_order[b] by {
                if a < self.tag_order.len() {
                    assert(self.tag_order.to_set().contains(self.tag_order[a]));
                }
                if b < self.tag_order.len() {
                    assert(self.tag_order.to_set().contains(self.tag_order[b]));
                }
            }
            assert(after.tag_order.to_set() =~= after.tag_index.dom()) by {
                assert forall|t: Seq<char>| after.tag_order.to_set().contains(t)
                    <==> after.tag_index.dom().contains(t) by {
                    if after.tag_order.contains(t) {
                        let k = choose|k: int| 0 <= k < after.tag_order.len()
                            && after.tag_order[k] == t;
                        if k < self.tag_order.len() {
                            assert(self.tag_order.to_set().contains(self.tag_order[k]));
                        }
                    }
                    if self.tag_order.to_set().contains(t) {
                        let k = choose|k: int| 0 <= k < self.tag_order.len() && self.tag_order[k]
                            == t;
                        assert(after.tag_order[k] == t);
                    }
                    if t == tag {
                        assert(after.tag_order[self.tag_order.len() as int] == t);
                    }
                }
            }
            assert forall|t: Seq<char>| #[trigger] after.tag_index.contains_key(t) implies file_names(
                after.tag_index[t],
            ).no_duplicates() && after.tag_index[t].len() > 0 by {
                if t != tag {
                    assert(self.tag_index.contains_key(t));
                }
            }
        }
    }

    /// Filing a record under several tags keeps the invariant.
    pub proof fn lemma_file_under_all_wf(self, tags: Seq<Seq<char>>, record: FileRecordView)
        requires
            self.wf(),
        ensures
            self.file_under_all(tags, record).wf(),
        decreases tags.len(),
    {
        if tags.len() > 0 {
            self.lemma_file_under_all_wf(tags.drop_last(), record);
            self.file_under_all(tags.drop_last(), record).lemma_file_under_wf(tags.last(), record);
        }
    }

    /// Taking a tag out keeps the invariant, and leaves a catalog without the
    /// tag as it was.
    pub proof fn lemma_remove_tag_wf(self, tag: Seq<char>)
        requires
            self.wf(),
        ensures
            self.remove_tag(tag).wf(),
            !self.tag_index.contains_key(tag) ==> self.remove_tag(tag) == self,
            !self.remove_tag(tag).tag_order.contains(tag),
    {
        let after = self.remove_tag(tag);
        self.tag_order.index_of_first_ensures(tag);
        match self.tag_order.index_of_first(tag) {
            None => {
                assert(!self.tag_order.to_set().contains(tag));
                assert(after.tag_index =~= self.tag_index);
            },
            Some(i) => {
                assert forall|a: int, b: int|
                    0 <= a < after.tag_order.len() && 0 <= b < after.tag_order.len() && a
                        != b implies after.tag_order[a] != after.tag_order[b] by {
                    let a0 = if a < i { a } else { a + 1 };
                    let b0 = if b < i { b } else { b + 1 };
                    assert(self.tag_order[a0] != self.tag_order[b0]);
                }
                assert(after.tag_order.to_set() =~= after.tag_index.dom()) by {
                    assert forall|t: Seq<char>| after.tag_order.to_set().contains(t)
                        <==> after.tag_index.dom().contains(t) by {
                        if after.tag_order.contains(t) {
                            let k = choose|k: int| 0 <= k < after.tag_order.len()
                                && after.tag_order[k] == t;
                            let k0 = if k < i { k } else { k + 1 };
                            assert(self.tag_order[k0] == t);
                            assert(self.tag_order[k0] != self.tag_order[i]);
                            assert(self.tag_order.to_set().contains(t));
                        }
                        if self.tag_index.contains_key(t) && t != tag {
                            assert(self.tag_order.to_set().contains(t));
                            let k = choose|k: int| 0 <= k < self.tag_order.len()
                                && self.tag_order[k] == t;
                            if k < i {
                                assert(after.tag_order[k] == t);
                            } else {
                                assert(after.tag_order[k - 1] == t);
                            }
                        }
                    }
                }
            },
        }
        assert(!after.tag_order.contains(tag)) by {
            assert(!after.tag_index.dom().contains(tag));
            assert(!after.tag_order.to_set().contains(tag));
        }
        assert forall|t: Seq<char>| #[trigger] after.tag_index.contains_key(t) implies file_names(
            after.tag_index[t],
        ).no_duplicates() && after.tag_index[t].len() > 0 by {
            assert(self.tag_index.contains_key(t));
        }
    }

    /// Taking a file out keeps the invariant.
    pub proof fn lemma_remove_file_wf(self, tag: Seq<char>, name: Seq<char>)
        requires
            self.wf(),
        ensures
            self.remove_file(tag, name).wf(),
    {
        let after = self.remove_file(tag, name);
        if self.has_file(tag, name) {
            let rest = without_file(self.tag_index[tag], name);
            if rest.len() == 0 {
                self.lemma_remove_tag_wf(tag);
            } else {
                assert(self.tag_order.to_set().contains(tag));
                assert(after.tag_index.dom() =~= self.tag_index.dom());
                let old_names = file_names(self.tag_index[tag]);
                let new_names = file_names(after.tag_index[tag]);
                old_names.index_of_first_ensures(name);
                let i = old_names.index_of_first(name)->0;
                assert(new_names =~= old_names.remove(i));
                assert forall|a: int, b: int|
                    0 <= a < new_names.len() && 0 <= b < new_names.len() && a
                        != b implies new_names[a] != new_names[b] by {
                    let a0 = if a < i { a } else { a + 1 };
                    let b0 = if b < i { b } else { b + 1 };
                    assert(old_names[a0] != old_names[b0]);
                }
                assert forall|t: Seq<char>| #[trigger]
                    after.tag_index.contains_key(t) implies file_names(
                    after.tag_index[t],
                ).no_duplicates() && after.tag_index[t].len() > 0 by {
                    if t != tag {
                        assert(self.tag_index.contains_key(t));
                    }
                }
            }
        }
    }
}

/// Where the first file called `name` stands in `files`, if there is one.
fn position_of_file(files: &Vec<FileRecord>, name: &str) -> (r: Option<usize>)
    ensures
        match r {
            Some(i) => i < files.len() && file_names(file_views(files@)).contains(name@)
                && file_names(file_views(files@)).index_of_first(name@) == Some(i as int),
            None => !file_names(file_views(files@)).contains(name@),
        },
{
    let wanted = name.to_owned();
    let ghost all = file_names(file_views(files@));
    let mut i: usize = 0;
    while i < files.len()
        invariant
            i <= files.len(),
            wanted@ == name@,
            all == file_names(file_views(files@)),
            forall|j: int| 0 <= j < i ==> all[j] != name@,
        decreases files.len() - i,
    {
        if files[i].name == wanted {
            proof {
                all.index_of_first_ensures(name@);
                assert(all[i as int] == name@);
            }
            return Some(i);
        }
        i += 1;
    }
    None
}

/// Whether no two of `files` have the same name.
fn has_distinct_names(files: &Vec<FileRecord>) -> (r: bool)
    ensures
        r == file_names(file_views(files@)).no_duplicates(),
{
    let ghost all = file_names(file_views(files@));
    let mut i: usize = 0;
    while i < files.len()
        invariant
            i <= files.len(),
            all == file_names(file_views(files@)),
            forall|a: int, b: int| 0 <= a < b < i ==> all[a] != all[b],
        decreases files.len() - i,
    {
        let mut j: usize = 0;
        while j < i
            invariant
                j <= i < files.len(),
                all == file_names(file_views(files@)),
                forall|a: int| 0 <= a < j ==> all[a] != all[i as int],
            decreases i - j,
        {
            if files[j].name == files[i].name {
                proof {
                    assert(all[j as int] == all[i as int]);
                }
                return false;
            }
            j += 1;
        }
        i += 1;
    }
    true
}

/// A copy of `files` without the one at `skip`.
fn copy_without(files: &Vec<FileRecord>, skip: usize) -> (r: Vec<FileRecord>)
    requires
        skip < files.len(),
    ensures
        file_views(r@) == file_views(files@).remove(skip as int),
{
    let mut r: Vec<FileRecord> = Vec::new();
    let mut i: usize = 0;
    while i < files.len()
        invariant
            i <= files.len(),
            skip < files.len(),
            r.len() == if i <= skip { i as int } else { i - 1 },
            forall|j: int| 0 <= j < r.len() ==> (#[trigger] r@[j])@ == files@[if j < skip { j } else { j + 1 }]@,
        decreases files.len() - i,
    {
        if i != skip {
            r.push(files[i].clone());
        }
        i += 1;
    }
    proof {
        assert(file_views(r@) =~= file_views(files@).remove(skip as int));
    }
    r
}

/// A copy of `files` with `record` added at the end.
fn copy_with(files: &Vec<FileRecord>, record: FileRecord) -> (r: Vec<FileRecord>)
    ensures
        file_views(r@) == file_views(files@).push(record@),
{
    let mut r: Vec<FileRecord> = Vec::new();
    let mut i: usize = 0;
    while i < files.len()
        invariant
            i <= files.len(),
            r.len() == i,
            forall|j: int| 0 <= j < i ==> (#[trigger] r@[j])@ == files@[j]@,
        decreases files.len() - i,
    {
        r.push(files[i].clone());
        i += 1;
    }
    r.push(record);
    proof {
        assert(file_views(r@) =~= file_views(files@).push(record@));
    }
    r
}

/// The files of a user by tag: the tags in the order of their first use
/// beside a map from tag to the files filed under it.
pub struct TagCatalog {
    tag_index: StringHashMap<Vec<FileRecord>>,
    tag_order: Vec<String>,
}

impl View for TagCatalog {
    type V = TagCatalogView;

    closed spec fn view(&self) -> TagCatalogView {
        TagCatalogView {
            tag_order: names(self.tag_order@),
            tag_index: self.tag_index@.map_values(|files: Vec<FileRecord>| file_views(files@)),
        }
    }
}

impl Default for TagCatalog {
    fn default() -> (catalog: TagCatalog)
        ensures
            catalog@ == TagCatalogView::empty(),
            catalog.wf(),
    {
        TagCatalog::new()
    }
}

impl TagCatalog {
    /// Whether the catalog's invariant holds of this value.
    pub open spec fn wf(&self) -> bool {
        self@.wf()
    }

    /// A catalog without any tag.
    pub fn new() -> (catalog: TagCatalog)
        ensures
            catalog@ == TagCatalogView::empty(),
            catalog.wf(),
    {
        let catalog = TagCatalog { tag_index: StringHashMap::new(), tag_order: Vec::new() };
        proof {
            assert(catalog@.tag_order =~= Seq::empty());
            assert(catalog@.tag_index =~= Map::empty());
            assert(catalog@.tag_order.to_set() =~= catalog@.tag_index.dom());
        }
        catalog
    }

    /// The tags in the order of their first use.
    pub fn tags(&self) -> (r: &Vec<String>)
        ensures
            names(r@) == self@.tag_order,
            self.wf() ==> names(r@).no_duplicates(),
    {
        &self.tag_order
    }

    /// The files filed under `tag`, oldest first, if the tag is in use.
    pub fn files_of(&self, tag: &str) -> (r: Option<&Vec<FileRecord>>)
        ensures
            match r {
                Some(files) => self@.tag_index.contains_key(tag@) && file_views(files@)
                    == self@.tag_index[tag@],
                None => !self@.tag_index.contains_key(tag@),
            },
    {
        self.tag_index.get(tag)
    }

    /// Takes `tag` and all that is filed under it out of the catalog. A tag
    /// that is not in use is left so.
    pub fn remove_tag(&mut self, tag: &str)
        requires
            old(self).wf(),
        ensures
            final(self).wf(),
            final(self)@ == old(self)@.remove_tag(tag@),
            !old(self)@.tag_index.contains_key(tag@) ==> final(self)@ == old(self)@,
    {
        self.tag_index.remove(tag);
        remove_name(&mut self.tag_order, tag);
        proof {
            assert(self@.tag_index =~= old(self)@.tag_index.remove(tag@));
            old(self)@.lemma_remove_tag_wf(tag@);
        }
    }

    /// Files `record` under the one tag `tag`, unless the tag already holds a
    /// file of that name. Says whether the record was filed.
    fn file_under(&mut self, tag: &str, record: &FileRecord) -> (filed: bool)
        requires
            old(self).wf(),
        ensures
            final(self).wf(),
            final(self)@ == old(self)@.file_under(tag@, record@),
            filed == !old(self)@.has_file(tag@, record@.name),
    {
        let bucket = match self.tag_index.get(tag) {
            None => {
                let mut bucket: Vec<FileRecord> = Vec::new();
                bucket.push(record.clone());
                proof {
                    assert(file_views(bucket@) =~= seq![record@]);
                    assert(!self@.tag_order.to_set().contains(tag@));
                }
                self.tag_order.push(tag.to_owned());
                proof {
                    assert(names(self.tag_order@) =~= old(self)@.tag_order.push(tag@));
                }
                bucket
            },
            Some(files) => {
                if position_of_file(files, record.name.as_str()).is_some() {
                    return false;
                }
                copy_with(files, record.clone())
            },
        };
        self.tag_index.insert(tag.to_owned(), bucket);
        proof {
            let expected = old(self)@.file_under(tag@, record@);
            assert(self@.tag_index =~= expected.tag_index);
            assert(self@.tag_order =~= expected.tag_order);
            old(self)@.lemma_file_under_wf(tag@, record@);
        }
        true
    }

    /// Files `record` under each of its tags in turn.
    ///
    /// A tag that already holds a file of the record's name is passed over,
    /// and the others are still served: the result lists the tags passed
    /// over, in the order in which they were met. A tag that is new to the
    /// catalog is listed after those in use.
    pub fn insert_file(&mut self, record: FileRecord) -> (skipped: Vec<String>)
        requires
            old(self).wf(),
        ensures
            final(self).wf(),
            final(self)@ == old(self)@.insert_file(record@),
            names(skipped@) == old(self)@.skipped_tags(record@.tags, record@),
    {
        let ghost before = self@;
        let ghost tags = record@.tags;
        let mut skipped: Vec<String> = Vec::new();
        let mut i: usize = 0;
        proof {
            assert(tags.take(0) =~= Seq::empty());
            assert(names(skipped@) =~= Seq::empty());
        }
        while i < record.tags.len()
            invariant
                i <= record.tags.len(),
                tags == record@.tags,
                tags == names(record.tags@),
                self.wf(),
                self@ == before.file_under_all(tags.take(i as int), record@),
                names(skipped@) == before.skipped_tags(tags.take(i as int), record@),
            decreases record.tags.len() - i,
        {
            proof {
                assert(tags.take(i + 1).drop_last() =~= tags.take(i as int));
                assert(tags.take(i + 1).last() == tags[i as int]);
            }
            let ghost seen = names(skipped@);
            let filed = self.file_under(record.tags[i].as_str(), &record);
            if !filed {
                skipped.push(record.tags[i].clone());
                proof {
                    assert(names(skipped@) =~= seen.push(tags[i as int]));
                }
            }
            i += 1;
        }
        proof {
            assert(tags.take(i as int) =~= tags);
        }
        skipped
    }

    /// Takes the file called `file_name` out of the bucket of `tag`, and the
    /// tag out of the catalog once its bucket is empty. Nothing changes where
    /// the tag is not in use or holds no file of that name.
    pub fn remove_file(&mut self, tag: &str, file_name: &str)
        requires
            old(self).wf(),
        ensures
            final(self).wf(),
            final(self)@ == old(self)@.remove_file(tag@, file_name@),
    {
        let rest = match self.tag_index.get(tag) {
            None => {
                return ;
            },
            Some(files) => match position_of_file(files, file_name) {
                None => {
                    return ;
                },
                Some(i) => copy_without(files, i),
            },
        };
        if rest.len() == 0 {
            self.remove_tag(tag);
        } else {
            self.tag_index.insert(tag.to_owned(), rest);
            proof {
                let expected = old(self)@.remove_file(tag@, file_name@);
                assert(self@.tag_index =~= expected.tag_index);
                old(self)@.lemma_remove_file_wf(tag@, file_name@);
            }
        }
    }

    /// The catalog that lists `tags` in this order and files the bucket at
    /// each place of `buckets` under the tag at the same place.
    ///
    /// The two must pair up into a catalog that keeps the invariant: as many
    /// buckets as tags, no tag twice, no bucket empty, no file name twice in
    /// a bucket. Anything else is refused as unreadable.
    pub fn from_buckets(tags: Vec<String>, buckets: Vec<Vec<FileRecord>>) -> (r: Result<
        TagCatalog,
        CatalogError,
    >)
        ensures
            match r {
                Ok(catalog) => catalog.wf() && TagCatalogView::restored(
                    names(tags@),
                    bucket_views(buckets@),
                ) == Some(catalog@),
                Err(e) => e == CatalogError::DecodeError && TagCatalogView::restored(
                    names(tags@),
                    bucket_views(buckets@),
                ) is None,
            },
    {
        let ghost order = names(tags@);
        let ghost given = bucket_views(buckets@);
        let ghost made = TagCatalogView::paired(order, given);
        if tags.len() != buckets.len() {
            return Err(CatalogError::DecodeError);
        }
        let mut rest = buckets;
        let mut index: StringHashMap<Vec<FileRecord>> = StringHashMap::new();
        let mut i: usize = tags.len();
        proof {
            assert(bucket_views(rest@).take(i as int) =~= given);
        }
        while i > 0
            invariant
                i <= tags.len(),
                rest.len() == i,
                order == names(tags@),
                given == bucket_views(buckets@),
                order.len() == given.len(),
                made == TagCatalogView::paired(order, given),
                bucket_views(rest@) == given.take(i as int),
                forall|a: int, b: int| i <= a < b < order.len() ==> order[a] != order[b],
                forall|t: Seq<char>|
                    index@.contains_key(t) <==> exists|k: int|
                        i <= k < order.len() && #[trigger] order[k] == t,
                forall|k: int|
                    i <= k < order.len() ==> file_views(index@[#[trigger] order[k]]@) == given[k]
                        && given[k].len() > 0 && file_names(given[k]).no_duplicates(),
            decreases i,
        {
            i -= 1;
            let ghost tag = order[i as int];
            proof {
                assert(order[i as int] == tags@[i as int]@);
                assert(bucket_views(rest@)[i as int] == given[i as int]);
            }
            let bucket = match rest.pop() {
                Some(bucket) => bucket,
                None => {
                    return Err(CatalogError::DecodeError);
                },
            };
            proof {
                assert(file_views(bucket@) == given[i as int]);
                assert(bucket_views(rest@) =~= given.take(i as int));
            }
            if bucket.len() == 0 || !has_distinct_names(&bucket) || index.contains_key(
                tags[i].as_str(),
            ) {
                proof {
                    if made.wf() {
                        assert(order[i as int] == tag);
                        assert(order.contains(tag));
                        assert(made.tag_index.contains_key(tag));
                        let at = order.index_of(tag);
                        assert(0 <= at < order.len() && order[at] == tag);
                        if at != i {
                            assert(order[at] == order[i as int]);
                        }
                        assert(made.tag_index[tag] == given[i as int]);
                        if index@.contains_key(tag) {
                            let k = choose|k: int| i + 1 <= k < order.len() && #[trigger] order[k]
                                == tag;
                            assert(order[k] == order[i as int]);
                        }
                        assert(false);
                    }
                }
                return Err(CatalogError::DecodeError);
            }
            index.insert(tags[i].clone(), bucket);
            proof {
                assert forall|t: Seq<char>| index@.contains_key(t) <==> exists|k: int|
                    i <= k < order.len() && #[trigger] order[k] == t by {
                    if t == tag {
                        assert(order[i as int] == t);
                    }
                    if exists|k: int| i <= k < order.len() && #[trigger] order[k] == t {
                        let k = choose|k: int| i <= k < order.len() && #[trigger] order[k] == t;
                        if k > i {
                            assert(i + 1 <= k < order.len() && order[k] == t);
                        }
                    }
                }
                assert forall|a: int, b: int| i <= a < b < order.len() implies order[a]
                    != order[b] by {
                    if a == i && order[a] == order[b] {
                        assert(i + 1 <= b < order.len() && order[b] == tag);
                    }
                }
                assert forall|k: int| i <= k < order.len() implies file_views(
                    index@[#[trigger] order[k]]@,
                ) == given[k] && given[k].len() > 0 && file_names(given[k]).no_duplicates() by {
                    if k > i {
                        assert(order[k] != order[i as int]);
                    }
                }
            }
        }
        let catalog = TagCatalog { tag_index: index, tag_order: tags };
        proof {
            assert(catalog@.tag_order == order);
            assert(catalog@.tag_index =~= made.tag_index) by {
                assert forall|t: Seq<char>| catalog@.tag_index.contains_key(t)
                    <==> made.tag_index.contains_key(t) by {
                    if order.contains(t) {
                        let k = choose|k: int| 0 <= k < order.len() && order[k] == t;
                        assert(0 <= k < order.len() && order[k] == t);
                    }
                }
                assert forall|t: Seq<char>| catalog@.tag_index.contains_key(
                    t,
                ) implies catalog@.tag_index[t] == made.tag_index[t] by {
                    let k = order.index_of(t);
                    assert(order.contains(t));
                    assert(file_views(index@[order[k]]@) == given[k]);
                }
            }
            assert(made.tag_order.to_set() =~= made.tag_index.dom());
            assert forall|t: Seq<char>| #[trigger] made.tag_index.contains_key(t) implies file_names(
                made.tag_index[t],
            ).no_duplicates() && made.tag_index[t].len() > 0 by {
                let k = order.index_of(t);
                assert(order.contains(t));
                assert(file_views(index@[order[k]]@) == given[k]);
            }
            assert(catalog@ == made);
        }
        Ok(catalog)
    }
}

} // verus!
