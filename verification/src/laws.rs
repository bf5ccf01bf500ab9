//! What holds of the catalogs whatever is done to them.

use vstd::prelude::*;
use crate::bookmark::BookmarkListView;
use crate::bookmark::BookmarkOp;
use crate::bookmark::record_aliases;
use crate::error::CatalogError;
use crate::tags::file_names;
use crate::tags::FileRecordView;
use crate::tags::TagCatalogView;
use crate::tags::TagOp;
use crate::text::lemma_sorted_no_duplicates;
use crate::text::strictly_sorted;

verus! {

/// Whether `name` stands at exactly one place of `names`.
pub open spec fn occurs_once(names: Seq<Seq<char>>, name: Seq<char>) -> bool {
    exists|i: int|
        0 <= i < names.len() && #[trigger] names[i] == name && forall|j: int|
            0 <= j < names.len() && #[trigger] names[j] == name ==> j == i
}

/// However many files are filed and however many tags and files are taken
/// out, after each step the listed tags are exactly the keys of the map, and
/// no tag is left with an empty bucket.
pub proof fn law_tag_invariant_preserved(start: TagCatalogView, ops: Seq<TagOp>, n: int)
    requires
        start.wf(),
        0 <= n <= ops.len(),
    ensures
        start.apply_all(ops.take(n)).wf(),
        start.apply_all(ops.take(n)).tag_order.to_set() == start.apply_all(
            ops.take(n),
        ).tag_index.dom(),
        forall|t: Seq<char>| #[trigger]
            start.apply_all(ops.take(n)).tag_index.contains_key(t) ==> start.apply_all(
                ops.take(n),
            ).tag_index[t].len() > 0,
    decreases n,
{
    if n > 0 {
        law_tag_invariant_preserved(start, ops, n - 1);
        assert(ops.take(n).drop_last() =~= ops.take(n - 1));
        let before = start.apply_all(ops.take(n - 1));
        match ops.take(n).last() {
            TagOp::InsertFile(record) => {
                before.lemma_file_under_all_wf(record.tags, record);
            },
            TagOp::RemoveTag(tag) => {
                before.lemma_remove_tag_wf(tag);
            },
            TagOp::RemoveFile(tag, name) => {
                before.lemma_remove_file_wf(tag, name);
            },
        }
    }
}

/// Taking out a tag that is not in use leaves the catalog as it was.
pub proof fn law_remove_absent_tag(catalog: TagCatalogView, tag: Seq<char>)
    requires
        catalog.wf(),
        !catalog.tag_index.contains_key(tag),
    ensures
        catalog.remove_tag(tag) == catalog,
{
    catalog.lemma_remove_tag_wf(tag);
}

/// Taking the only file of a tag out takes the tag out with it.
pub proof fn law_last_file_takes_tag(catalog: TagCatalogView, tag: Seq<char>, name: Seq<char>)
    requires
        catalog.wf(),
        catalog.tag_index.contains_key(tag),
        catalog.tag_index[tag].len() == 1,
        catalog.tag_index[tag][0].name == name,
    ensures
        !catalog.remove_file(tag, name).tag_order.contains(tag),
        !catalog.remove_file(tag, name).tag_index.contains_key(tag),
        catalog.remove_file(tag, name) == catalog.remove_tag(tag),
{
    let all = file_names(catalog.tag_index[tag]);
    assert(all[0] == name);
    assert(all.contains(name));
    all.index_of_first_ensures(name);
    catalog.lemma_remove_tag_wf(tag);
}

/// A file that a tag holds stays there when a record is filed under any tag.
pub proof fn lemma_file_under_keeps(
    catalog: TagCatalogView,
    tag: Seq<char>,
    record: FileRecordView,
    held_tag: Seq<char>,
    held_name: Seq<char>,
)
    requires
        catalog.has_file(held_tag, held_name),
    ensures
        catalog.file_under(tag, record).has_file(held_tag, held_name),
{
    let after = catalog.file_under(tag, record);
    if !catalog.has_file(tag, record.name) && held_tag == tag {
        let old_names = file_names(catalog.tag_index[tag]);
        let new_names = file_names(after.tag_index[tag]);
        assert(new_names =~= old_names.push(record.name));
        let k = choose|k: int| 0 <= k < old_names.len() && old_names[k] == held_name;
        assert(new_names[k] == held_name);
    }
}

/// After a record was filed under a tag, the tag holds a file of its name.
pub proof fn lemma_file_under_holds(catalog: TagCatalogView, tag: Seq<char>, record: FileRecordView)
    ensures
        catalog.file_under(tag, record).has_file(tag, record.name),
{
    let after = catalog.file_under(tag, record);
    if !catalog.has_file(tag, record.name) {
        let new_names = file_names(after.tag_index[tag]);
        assert(new_names[new_names.len() - 1] == record.name);
    }
}

/// After a record was filed under several tags, each of them holds a file of
/// its name, and so does every tag that did before.
pub proof fn lemma_file_under_all_holds(
    catalog: TagCatalogView,
    tags: Seq<Seq<char>>,
    record: FileRecordView,
)
    ensures
        forall|i: int|
            0 <= i < tags.len() ==> catalog.file_under_all(tags, record).has_file(
                #[trigger] tags[i],
                record.name,
            ),
        forall|t: Seq<char>, n: Seq<char>| #[trigger]
            catalog.has_file(t, n) ==> catalog.file_under_all(tags, record).has_file(t, n),
    decreases tags.len(),
{
    if tags.len() > 0 {
        let mid = catalog.file_under_all(tags.drop_last(), record);
        lemma_file_under_all_holds(catalog, tags.drop_last(), record);
        lemma_file_under_holds(mid, tags.last(), record);
        assert forall|i: int| 0 <= i < tags.len() implies catalog.file_under_all(
            tags,
            record,
        ).has_file(#[trigger] tags[i], record.name) by {
            if i < tags.len() - 1 {
                assert(tags.drop_last()[i] == tags[i]);
                lemma_file_under_keeps(mid, tags.last(), record, tags[i], record.name);
            }
        }
        assert forall|t: Seq<char>, n: Seq<char>| #[trigger]
            catalog.has_file(t, n) implies catalog.file_under_all(tags, record).has_file(t, n) by {
            lemma_file_under_keeps(mid, tags.last(), record, t, n);
        }
    }
}

/// Filing a record under tags that all hold a file of its name changes nothing.
pub proof fn lemma_file_under_all_skips(
    catalog: TagCatalogView,
    tags: Seq<Seq<char>>,
    record: FileRecordView,
)
    requires
        forall|i: int| 0 <= i < tags.len() ==> catalog.has_file(#[trigger] tags[i], record.name),
    ensures
        catalog.file_under_all(tags, record) == catalog,
    decreases tags.len(),
{
    if tags.len() > 0 {
        assert forall|i: int| 0 <= i < tags.drop_last().len() implies catalog.has_file(
            #[trigger] tags.drop_last()[i],
            record.name,
        ) by {
            assert(tags.drop_last()[i] == tags[i]);
        }
        lemma_file_under_all_skips(catalog, tags.drop_last(), record);
        assert(catalog.has_file(tags[tags.len() - 1], record.name));
    }
}

/// However often a record is filed, each of its tags holds exactly one file
/// of its name: filing it a second time changes nothing.
pub proof fn law_insert_file_once(catalog: TagCatalogView, record: FileRecordView)
    requires
        catalog.wf(),
    ensures
        catalog.insert_file(record).insert_file(record) == catalog.insert_file(record),
        forall|i: int|
            0 <= i < record.tags.len() ==> {
                &&& catalog.insert_file(record).tag_index.contains_key(#[trigger] record.tags[i])
                &&& occurs_once(
                    file_names(catalog.insert_file(record).tag_index[record.tags[i]]),
                    record.name,
                )
            },
{
    let once = catalog.insert_file(record);
    lemma_file_under_all_holds(catalog, record.tags, record);
    lemma_file_under_all_skips(once, record.tags, record);
    catalog.lemma_file_under_all_wf(record.tags, record);
    assert forall|i: int| 0 <= i < record.tags.len() implies {
        &&& once.tag_index.contains_key(#[trigger] record.tags[i])
        &&& occurs_once(file_names(once.tag_index[record.tags[i]]), record.name)
    } by {
        let tag = record.tags[i];
        assert(once.has_file(tag, record.name));
        let all = file_names(once.tag_index[tag]);
        let k = choose|k: int| 0 <= k < all.len() && all[k] == record.name;
        assert(all.no_duplicates());
        assert(all[k] == record.name);
    }
}

/// However many bookmarks are filed, renamed, opened and taken out, after
/// each step the aliases are listed in strictly ascending order, none of them
/// twice, and every bookmark is filed under its own alias: no two entries
/// share an alias.
pub proof fn law_alias_invariant_preserved(start: BookmarkListView, ops: Seq<BookmarkOp>, n: int)
    requires
        start.wf(),
        0 <= n <= ops.len(),
    ensures
        start.apply_all(ops.take(n)).wf(),
        strictly_sorted(start.apply_all(ops.take(n)).alias_order),
        start.apply_all(ops.take(n)).alias_order.no_duplicates(),
        forall|a: Seq<char>, b: Seq<char>|
            #![trigger start.apply_all(ops.take(n)).alias_index[a], start.apply_all(ops.take(n)).alias_index[b]]
            start.apply_all(ops.take(n)).alias_index.contains_key(a) && start.apply_all(
                ops.take(n),
            ).alias_index.contains_key(b) && a != b ==> start.apply_all(
                ops.take(n),
            ).alias_index[a].alias != start.apply_all(ops.take(n)).alias_index[b].alias,
    decreases n,
{
    if n > 0 {
        law_alias_invariant_preserved(start, ops, n - 1);
        assert(ops.take(n).drop_last() =~= ops.take(n - 1));
        let before = start.apply_all(ops.take(n - 1));
        match ops.take(n).last() {
            BookmarkOp::Insert(bookmark) => {
                before.lemma_insert_wf(bookmark);
            },
            BookmarkOp::Remove(alias) => {
                before.lemma_remove_wf(alias);
            },
            BookmarkOp::Rename(old_alias, new_alias) => {
                before.lemma_rename_wf(old_alias, new_alias);
            },
            BookmarkOp::Touch(alias, at) => {
                before.lemma_touch_wf(alias, at);
            },
        }
    }
    lemma_sorted_no_duplicates(start.apply_all(ops.take(n)).alias_order);
}

/// Renaming a bookmark to an alias that another one holds is refused as a
/// duplicate and changes nothing.
pub proof fn law_rename_collision(
    list: BookmarkListView,
    old_alias: Seq<char>,
    new_alias: Seq<char>,
)
    requires
        old_alias != new_alias,
        list.alias_index.contains_key(new_alias),
    ensures
        list.rename_error(old_alias, new_alias) == Some(CatalogError::DuplicateAlias),
        list.rename(old_alias, new_alias) == list,
{
}

/// A catalog that is taken apart into its bookmarks and put together again
/// from them is the catalog it was: the same aliases in the same order, and
/// the same bookmark under each.
pub proof fn law_bookmarks_round_trip(list: BookmarkListView)
    requires
        list.wf(),
    ensures
        BookmarkListView::restored(list.records()) == Some(list),
{
    let records = list.records();
    let start = BookmarkListView::empty();
    let back = start.insert_all(records);
    assert(record_aliases(records) =~= list.alias_order) by {
        assert forall|i: int| 0 <= i < records.len() implies record_aliases(records)[i]
            == list.alias_order[i] by {
            assert(list.alias_order.to_set().contains(list.alias_order[i]));
        }
    }
    lemma_sorted_no_duplicates(list.alias_order);
    BookmarkListView::lemma_empty_wf();
    start.lemma_insert_all_wf(records);
    start.lemma_insert_all_files(records);
    assert(back.alias_index.dom() =~= list.alias_index.dom());
    assert(back.alias_index =~= list.alias_index) by {
        assert forall|a: Seq<char>| back.alias_index.contains_key(a) implies back.alias_index[a]
            == list.alias_index[a] by {
            assert(list.alias_order.to_set().contains(a));
            let k = choose|k: int| 0 <= k < list.alias_order.len() && list.alias_order[k] == a;
            assert(records[k].alias == a);
        }
    }
    back.lemma_order_determined();
    list.lemma_order_determined();
}

/// A catalog that is taken apart into its tags and their buckets and put
/// together again from them is the catalog it was: the same tags in the same
/// order, and the same files under each.
pub proof fn law_tags_round_trip(catalog: TagCatalogView)
    requires
        catalog.wf(),
    ensures
        TagCatalogView::restored(catalog.tag_order, catalog.buckets()) == Some(catalog),
{
    let tags = catalog.tag_order;
    let made = TagCatalogView::paired(tags, catalog.buckets());
    assert(made.tag_index =~= catalog.tag_index) by {
        assert forall|t: Seq<char>| made.tag_index.contains_key(t)
            <==> catalog.tag_index.contains_key(t) by {
            assert(tags.to_set().contains(t) <==> tags.contains(t));
        }
        assert forall|t: Seq<char>| made.tag_index.contains_key(t) implies made.tag_index[t]
            == catalog.tag_index[t] by {
            let k = tags.index_of(t);
            assert(0 <= k < tags.len() && tags[k] == t);
        }
    }
    assert(made == catalog);
}

} // verus!
