//! Projection of a flat key namespace onto one directory level.
//!
//! The store answers a listing request page by page. Each page holds object
//! records and common prefixes. A `Listing` absorbs them in the order in which
//! they arrive and keeps the entries of one logical directory: files, and one
//! folder entry per first-level name.

use vstd::prelude::*;
use crate::text::{
    chars_of, ends_with, has_suffix_char, lemma_first_index, lemma_split_segments,
    lemma_views_push, opt_chars, split, split_on, starts_with, string_of, strip_prefix, views,
    without_prefix, DELIMITER,
};

verus! {

/// One entry of a directory level: a file, or a folder that stands for every
/// key below it.
pub struct S3Object {
    pub key: String,
    pub last_modified: Option<String>,
    pub size: Option<i64>,
    pub storage_class: Option<String>,
    pub is_folder: bool,
}

/// One object of a listing page, as the store reports it.
pub struct ObjectRecord {
    pub key: Option<String>,
    pub last_modified: Option<String>,
    pub storage_class: Option<String>,
    pub size: i64,
}

/// One page of a listing.
pub struct ListPage {
    pub contents: Vec<ObjectRecord>,
    pub common_prefixes: Vec<Option<String>>,
}

/// The mathematical value of an `S3Object`.
pub struct Entry {
    pub key: Seq<char>,
    pub last_modified: Option<Seq<char>>,
    pub size: Option<i64>,
    pub storage_class: Option<Seq<char>>,
    pub is_folder: bool,
}

/// The mathematical value of an `ObjectRecord`.
pub struct Record {
    pub key: Option<Seq<char>>,
    pub last_modified: Option<Seq<char>>,
    pub storage_class: Option<Seq<char>>,
    pub size: i64,
}

/// The mathematical value of a `ListPage`.
pub struct Page {
    pub contents: Seq<Record>,
    pub common_prefixes: Seq<Option<Seq<char>>>,
}

impl View for S3Object {
    type V = Entry;

    open spec fn view(&self) -> Entry {
        Entry {
            key: self.key@,
            last_modified: opt_chars(self.last_modified),
            size: self.size,
            storage_class: opt_chars(self.storage_class),
            is_folder: self.is_folder,
        }
    }
}

impl View for ObjectRecord {
    type V = Record;

    open spec fn view(&self) -> Record {
        Record {
            key: opt_chars(self.key),
            last_modified: opt_chars(self.last_modified),
            storage_class: opt_chars(self.storage_class),
            size: self.size,
        }
    }
}

impl View for ListPage {
    type V = Page;

    open spec fn view(&self) -> Page {
        Page {
            contents: views(self.contents@),
            common_prefixes: Seq::new(
                self.common_prefixes@.len(),
                |i: int| opt_chars(self.common_prefixes@[i]),
            ),
        }
    }
}

/// The prefix that is stripped from every key: empty where none was asked
/// for, and ending in the delimiter otherwise.
pub open spec fn normalized_prefix(prefix: Option<Seq<char>>) -> Seq<char> {
    match prefix {
        None => Seq::empty(),
        Some(p) => if p.len() == 0 || ends_with(p, DELIMITER) {
            p
        } else {
            p.push(DELIMITER)
        },
    }
}

/// The name under which a relative key is shown: its first segment.
pub open spec fn first_segment(rel: Seq<char>) -> Seq<char> {
    split(rel, DELIMITER)[0]
}

/// A folder marker: an empty object whose key ends in the delimiter.
pub open spec fn is_marker(rel: Seq<char>, size: i64) -> bool {
    ends_with(rel, DELIMITER) && size == 0
}

/// A key that lies deeper than the level that is shown.
pub open spec fn is_nested(rel: Seq<char>) -> bool {
    split(rel, DELIMITER).len() > 1
}

/// Whether the entries hold a folder of the given name.
pub open spec fn has_folder(entries: Seq<Entry>, name: Seq<char>) -> bool {
    exists|i: int|
        0 <= i < entries.len() && (#[trigger] entries[i]).is_folder && entries[i].key == name
}

/// The entry that a record is shown as.
pub open spec fn record_entry(prefix: Seq<char>, r: Record, is_folder: bool) -> Entry {
    Entry {
        key: first_segment(strip_prefix(r.key->0, prefix)),
        last_modified: r.last_modified,
        size: Some(r.size),
        storage_class: r.storage_class,
        is_folder,
    }
}

/// The folder entry that a common prefix is shown as.
pub open spec fn prefix_entry(prefix: Seq<char>, p: Seq<char>) -> Entry {
    Entry {
        key: first_segment(strip_prefix(p, prefix)),
        last_modified: None,
        size: None,
        storage_class: None,
        is_folder: true,
    }
}

/// The entries after one more object record. A record that lacks its key, its
/// date or its storage class is passed over, and so is the key that equals the
/// prefix. A marker or a nested key adds a folder unless the entries hold one
/// of that name. Any other key adds a file.
pub open spec fn absorb_record(entries: Seq<Entry>, prefix: Seq<char>, r: Record) -> Seq<Entry> {
    if r.key is None || r.last_modified is None || r.storage_class is None {
        entries
    } else {
        let rel = strip_prefix(r.key->0, prefix);
        if rel.len() == 0 {
            entries
        } else if is_marker(rel, r.size) || is_nested(rel) {
            if has_folder(entries, first_segment(rel)) {
                entries
            } else {
                entries.push(record_entry(prefix, r, true))
            }
        } else {
            entries.push(record_entry(prefix, r, false))
        }
    }
}

/// The entries after one more common prefix: a folder of its first segment is
/// added unless the entries hold one of that name.
pub open spec fn absorb_common_prefix(
    entries: Seq<Entry>,
    prefix: Seq<char>,
    p: Option<Seq<char>>,
) -> Seq<Entry> {
    match p {
        None => entries,
        Some(p) => {
            let rel = strip_prefix(p, prefix);
            if rel.len() == 0 || has_folder(entries, first_segment(rel)) {
                entries
            } else {
                entries.push(prefix_entry(prefix, p))
            }
        },
    }
}

/// The entries after the records `rs`, absorbed in order.
pub open spec fn absorb_records(entries: Seq<Entry>, prefix: Seq<char>, rs: Seq<Record>) -> Seq<
    Entry,
>
    decreases rs.len(),
{
    if rs.len() == 0 {
        entries
    } else {
        absorb_record(absorb_records(entries, prefix, rs.drop_last()), prefix, rs.last())
    }
}

/// The entries after the common prefixes `ps`, absorbed in order.
pub open spec fn absorb_common_prefixes(
    entries: Seq<Entry>,
    prefix: Seq<char>,
    ps: Seq<Option<Seq<char>>>,
) -> Seq<Entry>
    decreases ps.len(),
{
    if ps.len() == 0 {
        entries
    } else {
        absorb_common_prefix(
            absorb_common_prefixes(entries, prefix, ps.drop_last()),
            prefix,
            ps.last(),
        )
    }
}

/// The entries after one page: its records first, then its common prefixes.
pub open spec fn absorb_page(entries: Seq<Entry>, prefix: Seq<char>, page: Page) -> Seq<Entry> {
    absorb_common_prefixes(
        absorb_records(entries, prefix, page.contents),
        prefix,
        page.common_prefixes,
    )
}

/// The entries after the pages `pages`, absorbed in order.
pub open spec fn absorb_pages(entries: Seq<Entry>, prefix: Seq<char>, pages: Seq<Page>) -> Seq<
    Entry,
>
    decreases pages.len(),
{
    if pages.len() == 0 {
        entries
    } else {
        absorb_page(absorb_pages(entries, prefix, pages.drop_last()), prefix, pages.last())
    }
}

/// The listing of a prefix, given every page that the store returned for it.
pub open spec fn listing_of(prefix: Option<Seq<char>>, pages: Seq<Page>) -> Seq<Entry> {
    absorb_pages(Seq::empty(), normalized_prefix(prefix), pages)
}

/// No entry's name holds the delimiter.
pub open spec fn single_segment(entries: Seq<Entry>) -> bool {
    forall|i: int| 0 <= i < entries.len() ==> !(#[trigger] entries[i]).key.contains(DELIMITER)
}

/// No two folder entries have the same name.
pub open spec fn folders_distinct(entries: Seq<Entry>) -> bool {
    forall|i: int, j: int|
        0 <= i < j < entries.len() && (#[trigger] entries[i]).is_folder && (
        #[trigger] entries[j]).is_folder ==> entries[i].key != entries[j].key
}

/// The first segment of a key never holds the delimiter.
pub proof fn lemma_first_segment(rel: Seq<char>)
    ensures
        !first_segment(rel).contains(DELIMITER),
{
    lemma_split_segments(rel, DELIMITER);
}

/// A marker is always nested: a key that ends in the delimiter has more
/// than one segment.
pub proof fn lemma_marker_is_nested(rel: Seq<char>, size: i64)
    requires
        is_marker(rel, size),
    ensures
        is_nested(rel),
{
    lemma_split_segments(rel, DELIMITER);
    assert(rel[rel.len() - 1] == DELIMITER);
}

/// Absorbing a record keeps names free of the delimiter and folders distinct.
pub proof fn lemma_absorb_record_keeps(entries: Seq<Entry>, prefix: Seq<char>, r: Record)
    requires
        single_segment(entries),
        folders_distinct(entries),
    ensures
        single_segment(absorb_record(entries, prefix, r)),
        folders_distinct(absorb_record(entries, prefix, r)),
{
    if r.key is Some {
        lemma_first_segment(strip_prefix(r.key->0, prefix));
    }
}

/// Absorbing a common prefix keeps names free of the delimiter and folders
/// distinct.
pub proof fn lemma_absorb_common_prefix_keeps(
    entries: Seq<Entry>,
    prefix: Seq<char>,
    p: Option<Seq<char>>,
)
    requires
        single_segment(entries),
        folders_distinct(entries),
    ensures
        single_segment(absorb_common_prefix(entries, prefix, p)),
        folders_distinct(absorb_common_prefix(entries, prefix, p)),
{
    if p is Some {
        lemma_first_segment(strip_prefix(p->0, prefix));
    }
}

/// Every name of a listing is a single segment, and no folder is listed
/// twice, whatever the store returned.
pub proof fn lemma_listing_invariant(prefix: Option<Seq<char>>, pages: Seq<Page>)
    ensures
        single_segment(listing_of(prefix, pages)),
        folders_distinct(listing_of(prefix, pages)),
{
    lemma_absorb_pages_keeps(Seq::empty(), normalized_prefix(prefix), pages);
}

/// Absorbing records keeps names free of the delimiter and folders distinct.
pub proof fn lemma_absorb_records_keeps(entries: Seq<Entry>, prefix: Seq<char>, rs: Seq<Record>)
    requires
        single_segment(entries),
        folders_distinct(entries),
    ensures
        single_segment(absorb_records(entries, prefix, rs)),
        folders_distinct(absorb_records(entries, prefix, rs)),
    decreases rs.len(),
{
    if rs.len() > 0 {
        lemma_absorb_records_keeps(entries, prefix, rs.drop_last());
        lemma_absorb_record_keeps(
            absorb_records(entries, prefix, rs.drop_last()),
            prefix,
            rs.last(),
        );
    }
}

/// Absorbing common prefixes keeps names free of the delimiter and folders
/// distinct.
pub proof fn lemma_absorb_common_prefixes_keeps(
    entries: Seq<Entry>,
    prefix: Seq<char>,
    ps: Seq<Option<Seq<char>>>,
)
    requires
        single_segment(entries),
        folders_distinct(entries),
    ensures
        single_segment(absorb_common_prefixes(entries, prefix, ps)),
        folders_distinct(absorb_common_prefixes(entries, prefix, ps)),
    decreases ps.len(),
{
    if ps.len() > 0 {
        lemma_absorb_common_prefixes_keeps(entries, prefix, ps.drop_last());
        lemma_absorb_common_prefix_keeps(
            absorb_common_prefixes(entries, prefix, ps.drop_last()),
            prefix,
            ps.last(),
        );
    }
}

/// Absorbing pages keeps names free of the delimiter and folders distinct.
pub proof fn lemma_absorb_pages_keeps(entries: Seq<Entry>, prefix: Seq<char>, pages: Seq<Page>)
    requires
        single_segment(entries),
        folders_distinct(entries),
    ensures
        single_segment(absorb_pages(entries, prefix, pages)),
        folders_distinct(absorb_pages(entries, prefix, pages)),
    decreases pages.len(),
{
    if pages.len() > 0 {
        lemma_absorb_pages_keeps(entries, prefix, pages.drop_last());
        let before = absorb_pages(entries, prefix, pages.drop_last());
        lemma_absorb_records_keeps(before, prefix, pages.last().contents);
        lemma_absorb_common_prefixes_keeps(
            absorb_records(before, prefix, pages.last().contents),
            prefix,
            pages.last().common_prefixes,
        );
    }
}

/// The records of all pages, in the order in which the store returned them.
pub open spec fn all_records(pages: Seq<Page>) -> Seq<Record>
    decreases pages.len(),
{
    if pages.len() == 0 {
        Seq::empty()
    } else {
        all_records(pages.drop_last()) + pages.last().contents
    }
}

/// No two records have the same key.
pub open spec fn keys_once(rs: Seq<Record>) -> bool {
    forall|i: int, j: int|
        0 <= i < j < rs.len() && (#[trigger] rs[i]).key is Some && (#[trigger] rs[j]).key is Some
            ==> rs[i].key != rs[j].key
}

/// Every key starts with the prefix.
pub open spec fn keys_below(rs: Seq<Record>, prefix: Seq<char>) -> bool {
    forall|i: int|
        0 <= i < rs.len() && (#[trigger] rs[i]).key is Some ==> starts_with(rs[i].key->0, prefix)
}

/// No two file entries have the same name.
pub open spec fn files_distinct(entries: Seq<Entry>) -> bool {
    forall|i: int, j: int|
        0 <= i < j < entries.len() && !(#[trigger] entries[i]).is_folder && !(
        #[trigger] entries[j]).is_folder ==> entries[i].key != entries[j].key
}

/// Every file entry is the entry of one of the records: its name after the
/// prefix is the key of that record.
pub open spec fn files_stem_from(
    entries: Seq<Entry>,
    prefix: Seq<char>,
    seen: Seq<Record>,
) -> bool {
    forall|i: int|
        0 <= i < entries.len() && !(#[trigger] entries[i]).is_folder ==> exists|k: int|
            0 <= k < seen.len() && (#[trigger] seen[k]).key == Some(prefix + entries[i].key)
}

/// No two entries of the same kind have the same name.
pub open spec fn deduplicated(entries: Seq<Entry>) -> bool {
    forall|i: int, j: int|
        0 <= i < j < entries.len() && (#[trigger] entries[i]).key == (#[trigger] entries[j]).key
            ==> entries[i].is_folder != entries[j].is_folder
}

/// A record whose key is new adds no file name that is there already.
pub proof fn lemma_absorb_record_files(
    entries: Seq<Entry>,
    prefix: Seq<char>,
    seen: Seq<Record>,
    r: Record,
)
    requires
        files_distinct(entries),
        files_stem_from(entries, prefix, seen),
        keys_once(seen.push(r)),
        r.key is Some ==> starts_with(r.key->0, prefix),
    ensures
        files_distinct(absorb_record(entries, prefix, r)),
        files_stem_from(absorb_record(entries, prefix, r), prefix, seen.push(r)),
{
    let after = absorb_record(entries, prefix, r);
    let all = seen.push(r);
    assert forall|i: int| 0 <= i < entries.len() && !(#[trigger] entries[i]).is_folder implies exists|
        k: int,
    | 0 <= k < all.len() && (#[trigger] all[k]).key == Some(prefix + entries[i].key) by {
        let k = choose|k: int|
            0 <= k < seen.len() && (#[trigger] seen[k]).key == Some(prefix + entries[i].key);
        assert(all[k] == seen[k]);
    }
    if after.len() > entries.len() && !after.last().is_folder {
        let key = r.key->0;
        let rel = strip_prefix(key, prefix);
        lemma_split_segments(rel, DELIMITER);
        lemma_first_index(rel, DELIMITER);
        assert(rel.take(rel.len() as int) == rel);
        assert(after.last().key == rel);
        assert(prefix + rel == key);
        assert(all[seen.len() as int].key == Some(prefix + after.last().key));
        assert forall|i: int| 0 <= i < entries.len() && !(#[trigger] entries[i]).is_folder implies entries[i].key
            != rel by {
            let k = choose|k: int|
                0 <= k < seen.len() && (#[trigger] seen[k]).key == Some(prefix + entries[i].key);
            assert(all[k] == seen[k]);
            assert(all[seen.len() as int] == r);
        }
    }
}

/// Records whose keys are new and differ add no file name twice.
pub proof fn lemma_absorb_records_files(
    entries: Seq<Entry>,
    prefix: Seq<char>,
    seen: Seq<Record>,
    rs: Seq<Record>,
)
    requires
        files_distinct(entries),
        files_stem_from(entries, prefix, seen),
        keys_once(seen + rs),
        keys_below(rs, prefix),
    ensures
        files_distinct(absorb_records(entries, prefix, rs)),
        files_stem_from(absorb_records(entries, prefix, rs), prefix, seen + rs),
    decreases rs.len(),
{
    if rs.len() == 0 {
        assert(seen + rs == seen);
    } else {
        let before = rs.drop_last();
        assert forall|i: int, j: int|
            0 <= i < j < (seen + before).len() && (#[trigger] (seen + before)[i]).key is Some && (
            #[trigger] (seen + before)[j]).key is Some implies (seen + before)[i].key != (seen
            + before)[j].key by {
            assert((seen + before)[i] == (seen + rs)[i]);
            assert((seen + before)[j] == (seen + rs)[j]);
        }
        assert forall|i: int| 0 <= i < before.len() && (#[trigger] before[i]).key is Some implies starts_with(
            before[i].key->0,
            prefix,
        ) by {
            assert(before[i] == rs[i]);
        }
        lemma_absorb_records_files(entries, prefix, seen, before);
        assert((seen + before).push(rs.last()) == seen + rs);
        assert(rs[rs.len() - 1] == rs.last());
        lemma_absorb_record_files(
            absorb_records(entries, prefix, before),
            prefix,
            seen + before,
            rs.last(),
        );
    }
}

/// Common prefixes add no file.
pub proof fn lemma_absorb_common_prefixes_files(
    entries: Seq<Entry>,
    prefix: Seq<char>,
    seen: Seq<Record>,
    ps: Seq<Option<Seq<char>>>,
)
    requires
        files_distinct(entries),
        files_stem_from(entries, prefix, seen),
    ensures
        files_distinct(absorb_common_prefixes(entries, prefix, ps)),
        files_stem_from(absorb_common_prefixes(entries, prefix, ps), prefix, seen),
    decreases ps.len(),
{
    if ps.len() > 0 {
        lemma_absorb_common_prefixes_files(entries, prefix, seen, ps.drop_last());
    }
}

/// Pages whose keys all differ add no file name twice.
pub proof fn lemma_absorb_pages_files(prefix: Seq<char>, pages: Seq<Page>)
    requires
        keys_once(all_records(pages)),
        keys_below(all_records(pages), prefix),
    ensures
        files_distinct(absorb_pages(Seq::empty(), prefix, pages)),
        files_stem_from(absorb_pages(Seq::empty(), prefix, pages), prefix, all_records(pages)),
    decreases pages.len(),
{
    if pages.len() > 0 {
        let before = pages.drop_last();
        let seen = all_records(before);
        let rs = pages.last().contents;
        let all = all_records(pages);
        assert(all == seen + rs);
        assert forall|i: int, j: int|
            0 <= i < j < seen.len() && (#[trigger] seen[i]).key is Some && (
            #[trigger] seen[j]).key is Some implies seen[i].key != seen[j].key by {
            assert(seen[i] == all[i]);
            assert(seen[j] == all[j]);
        }
        assert forall|i: int| 0 <= i < seen.len() && (#[trigger] seen[i]).key is Some implies starts_with(
            seen[i].key->0,
            prefix,
        ) by {
            assert(seen[i] == all[i]);
        }
        assert forall|i: int| 0 <= i < rs.len() && (#[trigger] rs[i]).key is Some implies starts_with(
            rs[i].key->0,
            prefix,
        ) by {
            assert(rs[i] == all[seen.len() + i]);
        }
        lemma_absorb_pages_files(prefix, before);
        let start = absorb_pages(Seq::empty(), prefix, before);
        lemma_absorb_records_files(start, prefix, seen, rs);
        lemma_absorb_common_prefixes_files(
            absorb_records(start, prefix, rs),
            prefix,
            all,
            pages.last().common_prefixes,
        );
    }
}

/// Where the store returns each key once, and only keys that start with
/// the prefix of the listing, no two files of the listing have the same
/// name, and no two folders have.
pub proof fn lemma_listing_deduplicated(prefix: Option<Seq<char>>, pages: Seq<Page>)
    requires
        keys_once(all_records(pages)),
        keys_below(all_records(pages), normalized_prefix(prefix)),
    ensures
        deduplicated(listing_of(prefix, pages)),
{
    lemma_listing_invariant(prefix, pages);
    lemma_absorb_pages_files(normalized_prefix(prefix), pages);
}

/// `b` starts with the entries of `a`.
pub open spec fn extends(a: Seq<Entry>, b: Seq<Entry>) -> bool {
    a.len() <= b.len() && forall|i: int| 0 <= i < a.len() ==> a[i] == b[i]
}

/// `a` and `b` hold the same entries, however often and in whatever order.
pub open spec fn same_entries(a: Seq<Entry>, b: Seq<Entry>) -> bool {
    forall|e: Entry| a.contains(e) <==> b.contains(e)
}

/// The entries show the record already: absorbing it adds nothing new.
pub open spec fn shows_record(entries: Seq<Entry>, prefix: Seq<char>, r: Record) -> bool {
    if r.key is None || r.last_modified is None || r.storage_class is None {
        true
    } else {
        let rel = strip_prefix(r.key->0, prefix);
        if rel.len() == 0 {
            true
        } else if is_marker(rel, r.size) || is_nested(rel) {
            has_folder(entries, first_segment(rel))
        } else {
            entries.contains(record_entry(prefix, r, false))
        }
    }
}

/// The entries show the common prefix already.
pub open spec fn shows_common_prefix(
    entries: Seq<Entry>,
    prefix: Seq<char>,
    p: Option<Seq<char>>,
) -> bool {
    match p {
        None => true,
        Some(p) => strip_prefix(p, prefix).len() == 0 || has_folder(
            entries,
            first_segment(strip_prefix(p, prefix)),
        ),
    }
}

/// The entries show everything that the page holds.
pub open spec fn shows_page(entries: Seq<Entry>, prefix: Seq<char>, page: Page) -> bool {
    &&& forall|i: int|
        0 <= i < page.contents.len() ==> shows_record(entries, prefix, #[trigger] page.contents[i])
    &&& forall|i: int|
        0 <= i < page.common_prefixes.len() ==> shows_common_prefix(
            entries,
            prefix,
            #[trigger] page.common_prefixes[i],
        )
}

/// The entries show everything that the pages hold.
pub open spec fn shows_pages(entries: Seq<Entry>, prefix: Seq<char>, pages: Seq<Page>) -> bool {
    forall|i: int| 0 <= i < pages.len() ==> shows_page(entries, prefix, #[trigger] pages[i])
}

/// What the entries hold, longer entries hold too.
pub proof fn lemma_extends(a: Seq<Entry>, b: Seq<Entry>)
    requires
        extends(a, b),
    ensures
        forall|e: Entry| a.contains(e) ==> b.contains(e),
        forall|name: Seq<char>| has_folder(a, name) ==> has_folder(b, name),
        forall|prefix: Seq<char>, r: Record|
            shows_record(a, prefix, r) ==> shows_record(b, prefix, r),
        forall|prefix: Seq<char>, p: Option<Seq<char>>|
            shows_common_prefix(a, prefix, p) ==> shows_common_prefix(b, prefix, p),
        forall|prefix: Seq<char>, page: Page|
            shows_page(a, prefix, page) ==> shows_page(b, prefix, page),
        forall|prefix: Seq<char>, pages: Seq<Page>|
            shows_pages(a, prefix, pages) ==> shows_pages(b, prefix, pages),
{
    assert forall|e: Entry| a.contains(e) implies b.contains(e) by {
        let i = a.index_of(e);
        assert(b[i] == e);
    }
    assert forall|name: Seq<char>| has_folder(a, name) implies has_folder(b, name) by {
        let i = choose|i: int| 0 <= i < a.len() && (#[trigger] a[i]).is_folder && a[i].key == name;
        assert(b[i].is_folder && b[i].key == name);
    }
}

/// Absorbing a record keeps the entries that are there, and afterwards
/// the entries show the record.
pub proof fn lemma_record_shown(entries: Seq<Entry>, prefix: Seq<char>, r: Record)
    ensures
        extends(entries, absorb_record(entries, prefix, r)),
        shows_record(absorb_record(entries, prefix, r), prefix, r),
{
    let after = absorb_record(entries, prefix, r);
    if after.len() > entries.len() {
        assert(after[entries.len() as int] == after.last());
        assert(after.contains(after.last()));
    }
}

/// Absorbing a record that the entries show adds no entry that is new.
pub proof fn lemma_record_repeat(entries: Seq<Entry>, prefix: Seq<char>, r: Record)
    requires
        shows_record(entries, prefix, r),
    ensures
        extends(entries, absorb_record(entries, prefix, r)),
        same_entries(absorb_record(entries, prefix, r), entries),
{
    let after = absorb_record(entries, prefix, r);
    lemma_extends(entries, after);
    assert forall|e: Entry| after.contains(e) implies entries.contains(e) by {
        let i = after.index_of(e);
        if i < entries.len() {
            assert(entries[i] == e);
        }
    }
}

/// Absorbing a common prefix keeps the entries that are there, and
/// afterwards the entries show the common prefix.
pub proof fn lemma_common_prefix_shown(entries: Seq<Entry>, prefix: Seq<char>, p: Option<Seq<char>>)
    ensures
        extends(entries, absorb_common_prefix(entries, prefix, p)),
        shows_common_prefix(absorb_common_prefix(entries, prefix, p), prefix, p),
{
    let after = absorb_common_prefix(entries, prefix, p);
    if after.len() > entries.len() {
        assert(after[entries.len() as int].is_folder);
    }
}

/// Absorbing a common prefix that the entries show changes nothing.
pub proof fn lemma_common_prefix_repeat(
    entries: Seq<Entry>,
    prefix: Seq<char>,
    p: Option<Seq<char>>,
)
    requires
        shows_common_prefix(entries, prefix, p),
    ensures
        absorb_common_prefix(entries, prefix, p) == entries,
{
}

/// Absorbing records keeps the entries that are there, and afterwards the
/// entries show each of the records.
pub proof fn lemma_records_shown(entries: Seq<Entry>, prefix: Seq<char>, rs: Seq<Record>)
    ensures
        extends(entries, absorb_records(entries, prefix, rs)),
        forall|i: int|
            0 <= i < rs.len() ==> shows_record(
                absorb_records(entries, prefix, rs),
                prefix,
                #[trigger] rs[i],
            ),
    decreases rs.len(),
{
    if rs.len() > 0 {
        let before = absorb_records(entries, prefix, rs.drop_last());
        let after = absorb_records(entries, prefix, rs);
        lemma_records_shown(entries, prefix, rs.drop_last());
        lemma_record_shown(before, prefix, rs.last());
        lemma_extends(before, after);
        assert forall|i: int| 0 <= i < rs.len() implies shows_record(
            after,
            prefix,
            #[trigger] rs[i],
        ) by {
            if i < rs.len() - 1 {
                assert(rs.drop_last()[i] == rs[i]);
            }
        }
    }
}

/// Absorbing records that the entries show adds no entry that is new.
pub proof fn lemma_records_repeat(entries: Seq<Entry>, prefix: Seq<char>, rs: Seq<Record>)
    requires
        forall|i: int| 0 <= i < rs.len() ==> shows_record(entries, prefix, #[trigger] rs[i]),
    ensures
        extends(entries, absorb_records(entries, prefix, rs)),
        same_entries(absorb_records(entries, prefix, rs), entries),
    decreases rs.len(),
{
    if rs.len() > 0 {
        let before = absorb_records(entries, prefix, rs.drop_last());
        assert forall|i: int| 0 <= i < rs.drop_last().len() implies shows_record(
            entries,
            prefix,
            #[trigger] rs.drop_last()[i],
        ) by {
            assert(rs.drop_last()[i] == rs[i]);
        }
        lemma_records_repeat(entries, prefix, rs.drop_last());
        lemma_extends(entries, before);
        assert(shows_record(entries, prefix, rs[rs.len() - 1]));
        lemma_record_repeat(before, prefix, rs.last());
    }
}

/// Absorbing common prefixes keeps the entries that are there, and
/// afterwards the entries show each of the common prefixes.
pub proof fn lemma_common_prefixes_shown(
    entries: Seq<Entry>,
    prefix: Seq<char>,
    ps: Seq<Option<Seq<char>>>,
)
    ensures
        extends(entries, absorb_common_prefixes(entries, prefix, ps)),
        forall|i: int|
            0 <= i < ps.len() ==> shows_common_prefix(
                absorb_common_prefixes(entries, prefix, ps),
                prefix,
                #[trigger] ps[i],
            ),
    decreases ps.len(),
{
    if ps.len() > 0 {
        let before = absorb_common_prefixes(entries, prefix, ps.drop_last());
        let after = absorb_common_prefixes(entries, prefix, ps);
        lemma_common_prefixes_shown(entries, prefix, ps.drop_last());
        lemma_common_prefix_shown(before, prefix, ps.last());
        lemma_extends(before, after);
        assert forall|i: int| 0 <= i < ps.len() implies shows_common_prefix(
            after,
            prefix,
            #[trigger] ps[i],
        ) by {
            if i < ps.len() - 1 {
                assert(ps.drop_last()[i] == ps[i]);
            }
        }
    }
}

/// Absorbing common prefixes that the entries show changes nothing.
pub proof fn lemma_common_prefixes_repeat(
    entries: Seq<Entry>,
    prefix: Seq<char>,
    ps: Seq<Option<Seq<char>>>,
)
    requires
        forall|i: int| 0 <= i < ps.len() ==> shows_common_prefix(entries, prefix, #[trigger] ps[i]),
    ensures
        absorb_common_prefixes(entries, prefix, ps) == entries,
    decreases ps.len(),
{
    if ps.len() > 0 {
        assert forall|i: int| 0 <= i < ps.drop_last().len() implies shows_common_prefix(
            entries,
            prefix,
            #[trigger] ps.drop_last()[i],
        ) by {
            assert(ps.drop_last()[i] == ps[i]);
        }
        lemma_common_prefixes_repeat(entries, prefix, ps.drop_last());
        assert(shows_common_prefix(entries, prefix, ps[ps.len() - 1]));
        lemma_common_prefix_repeat(entries, prefix, ps.last());
    }
}

/// Absorbing pages keeps the entries that are there, and afterwards the
/// entries show each of the pages.
pub proof fn lemma_pages_shown(entries: Seq<Entry>, prefix: Seq<char>, pages: Seq<Page>)
    ensures
        extends(entries, absorb_pages(entries, prefix, pages)),
        shows_pages(absorb_pages(entries, prefix, pages), prefix, pages),
    decreases pages.len(),
{
    if pages.len() > 0 {
        let before = absorb_pages(entries, prefix, pages.drop_last());
        let page = pages.last();
        let middle = absorb_records(before, prefix, page.contents);
        let after = absorb_pages(entries, prefix, pages);
        lemma_pages_shown(entries, prefix, pages.drop_last());
        lemma_records_shown(before, prefix, page.contents);
        lemma_common_prefixes_shown(middle, prefix, page.common_prefixes);
        lemma_extends(before, middle);
        lemma_extends(middle, after);
        assert(shows_page(after, prefix, page));
        assert forall|i: int| 0 <= i < pages.len() implies shows_page(
            after,
            prefix,
            #[trigger] pages[i],
        ) by {
            if i < pages.len() - 1 {
                assert(pages.drop_last()[i] == pages[i]);
                assert(shows_page(before, prefix, pages[i]));
            }
        }
    }
}

/// Absorbing pages that the entries show adds no entry that is new.
pub proof fn lemma_pages_repeat(entries: Seq<Entry>, prefix: Seq<char>, pages: Seq<Page>)
    requires
        shows_pages(entries, prefix, pages),
    ensures
        extends(entries, absorb_pages(entries, prefix, pages)),
        same_entries(absorb_pages(entries, prefix, pages), entries),
    decreases pages.len(),
{
    if pages.len() > 0 {
        let before = absorb_pages(entries, prefix, pages.drop_last());
        let page = pages.last();
        assert forall|i: int| 0 <= i < pages.drop_last().len() implies shows_page(
            entries,
            prefix,
            #[trigger] pages.drop_last()[i],
        ) by {
            assert(pages.drop_last()[i] == pages[i]);
        }
        lemma_pages_repeat(entries, prefix, pages.drop_last());
        lemma_extends(entries, before);
        assert(shows_page(entries, prefix, pages[pages.len() - 1]));
        assert(shows_page(before, prefix, page));
        lemma_records_repeat(before, prefix, page.contents);
        let middle = absorb_records(before, prefix, page.contents);
        lemma_extends(before, middle);
        lemma_common_prefixes_repeat(middle, prefix, page.common_prefixes);
    }
}

/// Listing is idempotent: a listing that takes in once more the pages
/// that it was made from holds the same entries as before.
pub proof fn lemma_listing_idempotent(prefix: Option<Seq<char>>, pages: Seq<Page>)
    ensures
        same_entries(
            absorb_pages(listing_of(prefix, pages), normalized_prefix(prefix), pages),
            listing_of(prefix, pages),
        ),
{
    lemma_pages_shown(Seq::empty(), normalized_prefix(prefix), pages);
    lemma_pages_repeat(listing_of(prefix, pages), normalized_prefix(prefix), pages);
}

/// The prefix to strip for a requested prefix.
pub fn normalize_prefix(prefix: &Option<String>) -> (r: Vec<char>)
    ensures
        r@ == normalized_prefix(opt_chars(*prefix)),
{
    match prefix {
        None => Vec::new(),
        Some(p) => {
            let mut r = chars_of(p.as_str());
            if r.len() > 0 && !has_suffix_char(&r, DELIMITER) {
                r.push(DELIMITER);
            }
            r
        },
    }
}

/// Whether the entries hold a folder of the given name.
pub fn holds_folder(entries: &Vec<S3Object>, name: &String) -> (r: bool)
    ensures
        r == has_folder(views(entries@), name@),
{
    let mut i: usize = 0;
    while i < entries.len()
        invariant
            i <= entries.len(),
            forall|k: int|
                0 <= k < i ==> !(views(entries@)[k].is_folder && views(entries@)[k].key == name@),
        decreases entries.len() - i,
    {
        if entries[i].is_folder && entries[i].key == *name {
            assert(views(entries@)[i as int].is_folder && views(entries@)[i as int].key == name@);
            return true;
        }
        i += 1;
    }
    false
}

/// A listing in progress: the prefix that was asked for and the entries
/// found so far.
pub struct Listing {
    prefix: Vec<char>,
    entries: Vec<S3Object>,
}

impl Listing {
    /// Every name is a single segment and no folder is listed twice.
    #[verifier::type_invariant]
    pub closed spec fn wf(self) -> bool {
        &&& single_segment(views(self.entries@))
        &&& folders_distinct(views(self.entries@))
    }

    /// The normalized prefix of the listing.
    pub closed spec fn prefix(self) -> Seq<char> {
        self.prefix@
    }

    /// The entries found so far.
    pub closed spec fn entries(self) -> Seq<Entry> {
        views(self.entries@)
    }

    /// What holds of every listing.
    pub proof fn lemma_wf(self)
        requires
            self.wf(),
        ensures
            single_segment(self.entries()),
            folders_distinct(self.entries()),
    {
    }

    /// An empty listing for the prefix.
    pub fn new(prefix: &Option<String>) -> (l: Listing)
        ensures
            l.prefix() == normalized_prefix(opt_chars(*prefix)),
            l.entries() == Seq::<Entry>::empty(),
    {
        let l = Listing { prefix: normalize_prefix(prefix), entries: Vec::new() };
        assert(l.entries() == Seq::<Entry>::empty());
        l
    }

    /// The listing after one more object record.
    pub fn absorb_record(self, r: &ObjectRecord) -> (l: Listing)
        ensures
            l.prefix() == self.prefix(),
            l.entries() == absorb_record(self.entries(), self.prefix(), r@),
    {
        proof {
            use_type_invariant(&self);
            lemma_absorb_record_keeps(self.entries(), self.prefix(), r@);
        }
        let ghost before = self.entries();
        let Listing { prefix, mut entries } = self;
        if let Some(key) = &r.key {
            if let Some(last_modified) = &r.last_modified {
                if let Some(storage_class) = &r.storage_class {
                    let key_chars = chars_of(key.as_str());
                    let rel = without_prefix(&key_chars, &prefix);
                    if rel.len() > 0 {
                        let segments = split_on(&rel, DELIMITER);
                        proof {
                            lemma_split_segments(rel@, DELIMITER);
                        }
                        let name = string_of(&segments[0]);
                        let folder = (has_suffix_char(&rel, DELIMITER) && r.size == 0)
                            || segments.len() > 1;
                        if !folder || !holds_folder(&entries, &name) {
                            let entry = S3Object {
                                key: name,
                                last_modified: Some(last_modified.clone()),
                                size: Some(r.size),
                                storage_class: Some(storage_class.clone()),
                                is_folder: folder,
                            };
                            proof {
                                lemma_views_push(entries@, entry);
                                assert(entry@ == record_entry(prefix@, r@, folder));
                            }
                            entries.push(entry);
                        }
                    }
                }
            }
        }
        assert(views(entries@) == absorb_record(before, prefix@, r@));
        Listing { prefix, entries }
    }

    /// The listing after one more common prefix.
    pub fn absorb_common_prefix(self, p: &Option<String>) -> (l: Listing)
        ensures
            l.prefix() == self.prefix(),
            l.entries() == absorb_common_prefix(self.entries(), self.prefix(), opt_chars(*p)),
    {
        proof {
            use_type_invariant(&self);
            lemma_absorb_common_prefix_keeps(self.entries(), self.prefix(), opt_chars(*p));
        }
        let ghost before = self.entries();
        let Listing { prefix, mut entries } = self;
        if let Some(p) = p {
            let p_chars = chars_of(p.as_str());
            let rel = without_prefix(&p_chars, &prefix);
            if rel.len() > 0 {
                let segments = split_on(&rel, DELIMITER);
                proof {
                    lemma_split_segments(rel@, DELIMITER);
                }
                let name = string_of(&segments[0]);
                if !holds_folder(&entries, &name) {
                    let entry = S3Object {
                        key: name,
                        last_modified: None,
                        size: None,
                        storage_class: None,
                        is_folder: true,
                    };
                    proof {
                        lemma_views_push(entries@, entry);
                        assert(entry@ == prefix_entry(prefix@, p@));
                    }
                    entries.push(entry);
                }
            }
        }
        assert(views(entries@) == absorb_common_prefix(before, prefix@, opt_chars(*p)));
        Listing { prefix, entries }
    }

    /// The listing after one more page.
    pub fn absorb_page(self, page: &ListPage) -> (l: Listing)
        ensures
            l.prefix() == self.prefix(),
            l.entries() == absorb_page(self.entries(), self.prefix(), page@),
    {
        let ghost start = self.entries();
        let ghost prefix = self.prefix();
        let mut l = self;
        let mut i: usize = 0;
        while i < page.contents.len()
            invariant
                i <= page.contents.len(),
                l.prefix() == prefix,
                l.entries() == absorb_records(start, prefix, page@.contents.take(i as int)),
            decreases page.contents.len() - i,
        {
            proof {
                let upto = page@.contents.take(i + 1);
                assert(upto.drop_last() == page@.contents.take(i as int));
                assert(upto.last() == page.contents@[i as int]@);
            }
            l = l.absorb_record(&page.contents[i]);
            i += 1;
        }
        assert(page@.contents.take(page.contents.len() as int) == page@.contents);
        let ghost middle = l.entries();
        let mut j: usize = 0;
        while j < page.common_prefixes.len()
            invariant
                j <= page.common_prefixes.len(),
                l.prefix() == prefix,
                l.entries() == absorb_common_prefixes(
                    middle,
                    prefix,
                    page@.common_prefixes.take(j as int),
                ),
            decreases page.common_prefixes.len() - j,
        {
            proof {
                let upto = page@.common_prefixes.take(j + 1);
                assert(upto.drop_last() == page@.common_prefixes.take(j as int));
                assert(upto.last() == opt_chars(page.common_prefixes@[j as int]));
            }
            l = l.absorb_common_prefix(&page.common_prefixes[j]);
            j += 1;
        }
        assert(page@.common_prefixes.take(page.common_prefixes.len() as int)
            == page@.common_prefixes);
        l
    }

    /// The entries of the listing.
    pub fn into_entries(self) -> (entries: Vec<S3Object>)
        ensures
            views(entries@) == self.entries(),
            single_segment(views(entries@)),
            folders_distinct(views(entries@)),
    {
        proof {
            use_type_invariant(&self);
        }
        self.entries
    }
}

/// The entries of one directory level, from every page that the store
/// returned for the prefix, in the order in which their keys arrived.
pub fn list_objects(prefix: &Option<String>, pages: &Vec<ListPage>) -> (entries: Vec<S3Object>)
    ensures
        views(entries@) == listing_of(opt_chars(*prefix), views(pages@)),
        single_segment(views(entries@)),
        folders_distinct(views(entries@)),
{
    let mut l = Listing::new(prefix);
    let ghost norm = normalized_prefix(opt_chars(*prefix));
    let mut i: usize = 0;
    while i < pages.len()
        invariant
            i <= pages.len(),
            l.prefix() == norm,
            l.entries() == absorb_pages(Seq::empty(), norm, views(pages@).take(i as int)),
        decreases pages.len() - i,
    {
        proof {
            let upto = views(pages@).take(i + 1);
            assert(upto.drop_last() == views(pages@).take(i as int));
            assert(upto.last() == pages@[i as int]@);
        }
        l = l.absorb_page(&pages[i]);
        i += 1;
    }
    assert(views(pages@).take(pages.len() as int) == views(pages@));
    l.into_entries()
}

} // verus!
