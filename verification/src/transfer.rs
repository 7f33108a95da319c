//! Plans for downloads, uploads and deletions.
//!
//! Nothing here touches the store or the disk. Each function takes what was
//! read from them as plain values and says what is to be written, fetched or
//! deleted.

use vstd::prelude::*;
use crate::namer::{first_unused, is_taken, unused_name};
use crate::text::{
    chain, chars_of, ends_with, has_suffix_char, join, last_index, lemma_join_split,
    lemma_last_index, lemma_last_index_is, lemma_last_segment, lemma_split_segments,
    lemma_views_push, lemma_without_repeats, opt_chars, split, split_on, starts_with, string_of,
    strip_prefix, views, without_prefix, without_repeats, DELIMITER,
};

verus! {

/// What to download or delete: one object, or every object below a prefix.
pub struct S3OperationObject {
    pub prefix: String,
    pub is_folder: bool,
}

/// One file of a folder download: the key to fetch, the directories below
/// the destination that lead to the file, and the file's name.
pub struct FolderFile {
    pub key: String,
    pub directories: Vec<String>,
    pub file_name: String,
}

/// A folder download: the directory to create under the download root, the
/// files to write below it, the archive to pack it into where one is asked
/// for, and the prefix that was asked for.
pub struct FolderDownload {
    pub directory: String,
    pub files: Vec<FolderFile>,
    pub archive: Option<String>,
    pub token: String,
}

/// A target of a deletion together with the keys that the store listed
/// below it. Only a folder is listed; `None` says that listing it failed.
pub struct ExpandedTarget {
    pub target: S3OperationObject,
    pub listed: Option<Vec<String>>,
}

/// The keys to delete in one request, and the folders that could not be
/// listed.
pub struct DeletePlan {
    pub keys: Vec<String>,
    pub failed: Vec<String>,
}

/// A target of a batch that failed: its place in the batch and the message
/// of its error.
pub struct BatchFailure {
    pub index: usize,
    pub message: String,
}

/// The outcome of a batch of downloads: the paths that were written, and
/// the targets that failed.
pub struct BatchReport {
    pub paths: Vec<String>,
    pub failures: Vec<BatchFailure>,
}

/// The mathematical value of a `FolderFile`.
pub struct FilePlan {
    pub key: Seq<char>,
    pub directories: Seq<Seq<char>>,
    pub file_name: Seq<char>,
}

/// The mathematical value of an `ExpandedTarget`.
pub struct Target {
    pub prefix: Seq<char>,
    pub is_folder: bool,
    pub listed: Option<Seq<Seq<char>>>,
}

/// The mathematical value of a `BatchFailure`.
pub struct Failure {
    pub index: int,
    pub message: Seq<char>,
}

impl View for FolderFile {
    type V = FilePlan;

    open spec fn view(&self) -> FilePlan {
        FilePlan {
            key: self.key@,
            directories: views(self.directories@),
            file_name: self.file_name@,
        }
    }
}

impl View for ExpandedTarget {
    type V = Target;

    open spec fn view(&self) -> Target {
        Target {
            prefix: self.target.prefix@,
            is_folder: self.target.is_folder,
            listed: match self.listed {
                Some(keys) => Some(views(keys@)),
                None => None,
            },
        }
    }
}

impl View for BatchFailure {
    type V = Failure;

    open spec fn view(&self) -> Failure {
        Failure { index: self.index as int, message: self.message@ }
    }
}

/// The last segment of a key or of a path.
pub open spec fn last_segment(s: Seq<char>) -> Seq<char> {
    split(s, DELIMITER).last()
}

/// The last of the segments that is not empty, or the empty name where
/// every segment is empty.
pub open spec fn last_nonempty(parts: Seq<Seq<char>>) -> Seq<char>
    decreases parts.len(),
{
    if parts.len() == 0 {
        Seq::empty()
    } else if parts.last().len() > 0 {
        parts.last()
    } else {
        last_nonempty(parts.drop_last())
    }
}

/// The name of the directory that a folder download creates.
pub open spec fn folder_name(prefix: Seq<char>) -> Seq<char> {
    last_nonempty(split(prefix, DELIMITER))
}

/// The name of the archive of a directory.
pub open spec fn archive_name(directory: Seq<char>) -> Seq<char> {
    directory + ".zip"@
}

/// A key ending in the delimiter marks a folder and is not downloaded.
pub open spec fn is_folder_marker(key: Seq<char>) -> bool {
    ends_with(key, DELIMITER)
}

/// Where the object of `key` is written in a download of `prefix`: below
/// the directories named by all but the last segment of the key relative to
/// the prefix, under the last segment of the key.
pub open spec fn file_plan(prefix: Seq<char>, key: Seq<char>) -> FilePlan {
    FilePlan {
        key,
        directories: split(strip_prefix(key, prefix), DELIMITER).drop_last(),
        file_name: last_segment(key),
    }
}

/// The files of a folder download, in the order of the keys.
pub open spec fn folder_files(prefix: Seq<char>, keys: Seq<Seq<char>>) -> Seq<FilePlan>
    decreases keys.len(),
{
    if keys.len() == 0 {
        Seq::empty()
    } else if is_folder_marker(keys.last()) {
        folder_files(prefix, keys.drop_last())
    } else {
        folder_files(prefix, keys.drop_last()).push(file_plan(prefix, keys.last()))
    }
}

/// The key under which a local file is uploaded.
pub open spec fn upload_key(prefix: Option<Seq<char>>, file_name: Seq<char>) -> Seq<char> {
    match prefix {
        Some(p) => if p.len() > 0 {
            p + seq![DELIMITER] + file_name
        } else {
            file_name
        },
        None => file_name,
    }
}

/// The keys that one target asks to delete.
pub open spec fn target_keys(t: Target) -> Seq<Seq<char>> {
    if t.is_folder {
        match t.listed {
            Some(keys) => keys,
            None => Seq::empty(),
        }
    } else {
        seq![t.prefix]
    }
}

/// The keys that the targets ask to delete, in order, repeats included.
pub open spec fn requested_keys(ts: Seq<Target>) -> Seq<Seq<char>>
    decreases ts.len(),
{
    if ts.len() == 0 {
        Seq::empty()
    } else {
        requested_keys(ts.drop_last()) + target_keys(ts.last())
    }
}

/// The folders among the targets that could not be listed.
pub open spec fn unlisted_folders(ts: Seq<Target>) -> Seq<Seq<char>>
    decreases ts.len(),
{
    if ts.len() == 0 {
        Seq::empty()
    } else if ts.last().is_folder && ts.last().listed is None {
        unlisted_folders(ts.drop_last()).push(ts.last().prefix)
    } else {
        unlisted_folders(ts.drop_last())
    }
}

/// The paths of the targets that succeeded, in order.
pub open spec fn written_paths(outcomes: Seq<Result<String, String>>) -> Seq<Seq<char>>
    decreases outcomes.len(),
{
    if outcomes.len() == 0 {
        Seq::empty()
    } else {
        match outcomes.last() {
            Ok(path) => written_paths(outcomes.drop_last()).push(path@),
            Err(_) => written_paths(outcomes.drop_last()),
        }
    }
}

/// The targets that failed, in order.
pub open spec fn batch_failures(outcomes: Seq<Result<String, String>>) -> Seq<Failure>
    decreases outcomes.len(),
{
    if outcomes.len() == 0 {
        Seq::empty()
    } else {
        match outcomes.last() {
            Ok(_) => batch_failures(outcomes.drop_last()),
            Err(message) => batch_failures(outcomes.drop_last()).push(
                Failure { index: outcomes.len() - 1, message: message@ },
            ),
        }
    }
}

/// Whether some target asks to delete `key`: an object of that key, or a
/// folder below which the store listed it.
pub open spec fn is_requested(ts: Seq<Target>, key: Seq<char>) -> bool {
    exists|i: int| 0 <= i < ts.len() && target_keys(#[trigger] ts[i]).contains(key)
}

/// The requested keys are those that some target asks for.
pub proof fn lemma_requested_keys(ts: Seq<Target>)
    ensures
        forall|key: Seq<char>|
            #[trigger] requested_keys(ts).contains(key) <==> is_requested(ts, key),
    decreases ts.len(),
{
    if ts.len() > 0 {
        let before = ts.drop_last();
        lemma_requested_keys(before);
        let last = target_keys(ts.last());
        let done = requested_keys(before);
        assert forall|key: Seq<char>| #[trigger] requested_keys(ts).contains(key) <==> is_requested(
            ts,
            key,
        ) by {
            if requested_keys(ts).contains(key) {
                let k = requested_keys(ts).index_of(key);
                if k < done.len() {
                    assert(done[k] == key);
                    assert(done.contains(key));
                    assert(is_requested(before, key));
                    let i = choose|i: int|
                        0 <= i < before.len() && target_keys(#[trigger] before[i]).contains(key);
                    assert(ts[i] == before[i]);
                } else {
                    assert(last[k - done.len()] == key);
                    assert(target_keys(ts[ts.len() - 1]).contains(key));
                }
            }
            if is_requested(ts, key) {
                let i = choose|i: int|
                    0 <= i < ts.len() && target_keys(#[trigger] ts[i]).contains(key);
                if i < ts.len() - 1 {
                    assert(before[i] == ts[i]);
                    assert(is_requested(before, key));
                    assert(done.contains(key));
                    let k = done.index_of(key);
                    assert(requested_keys(ts)[k] == key);
                } else {
                    let k = last.index_of(key);
                    assert(requested_keys(ts)[done.len() + k] == key);
                }
            }
        }
    }
}

/// A deletion deletes exactly the keys that its targets ask for: the key of
/// each object and the listed keys of each folder, and no key twice.
pub proof fn lemma_delete_exact(ts: Seq<Target>)
    ensures
        without_repeats(requested_keys(ts)).no_duplicates(),
        forall|key: Seq<char>| #[trigger]
            without_repeats(requested_keys(ts)).contains(key) <==> is_requested(ts, key),
{
    lemma_without_repeats(requested_keys(ts));
    lemma_requested_keys(ts);
}

/// Below a prefix that is empty or ends in the delimiter, the directories
/// and the file name of a key spell out the key relative to the prefix.
pub proof fn lemma_folder_path(prefix: Seq<char>, key: Seq<char>)
    requires
        prefix.len() == 0 || ends_with(prefix, DELIMITER),
        starts_with(key, prefix),
    ensures
        file_plan(prefix, key).directories.push(file_plan(prefix, key).file_name) == split(
            strip_prefix(key, prefix),
            DELIMITER,
        ),
        join(
            file_plan(prefix, key).directories.push(file_plan(prefix, key).file_name),
            DELIMITER,
        ) == strip_prefix(key, prefix),
{
    let rel = strip_prefix(key, prefix);
    let parts = split(rel, DELIMITER);
    lemma_split_segments(rel, DELIMITER);
    lemma_join_split(rel, DELIMITER);
    lemma_last_segment(rel, DELIMITER);
    lemma_last_segment(key, DELIMITER);
    lemma_last_index(rel, DELIMITER);
    lemma_last_index(key, DELIMITER);
    let n = prefix.len() as int;
    let j = last_index(rel, DELIMITER);
    assert(key == prefix + rel);
    if n > 0 {
        assert(key[n - 1] == DELIMITER);
        assert forall|k: int| n + j < k < key.len() implies key[k] != DELIMITER by {
            assert(key[k] == rel[k - n]);
        }
        if j >= 0 {
            assert(key[n + j] == rel[j]);
        }
        lemma_last_index_is(key, DELIMITER, n + j);
        assert(key.skip(n + j + 1) == rel.skip(j + 1));
    } else {
        assert(key == rel);
    }
    assert(parts.drop_last().push(parts.last()) == parts);
}

/// The last segment of a key.
pub fn file_name_of(key: &str) -> (name: String)
    ensures
        name@ == last_segment(key@),
{
    let key = chars_of(key);
    let segments = split_on(&key, DELIMITER);
    proof {
        lemma_split_segments(key@, DELIMITER);
    }
    string_of(&segments[segments.len() - 1])
}

/// The name of the directory that a download of `prefix` creates.
pub fn folder_name_of(prefix: &str) -> (name: String)
    ensures
        name@ == folder_name(prefix@),
{
    let prefix_chars = chars_of(prefix);
    let segments = split_on(&prefix_chars, DELIMITER);
    let ghost parts = views(segments@);
    let mut i: usize = segments.len();
    assert(parts.take(i as int) == parts);
    while i > 0
        invariant
            i <= segments.len(),
            parts == views(segments@),
            parts == split(prefix@, DELIMITER),
            last_nonempty(parts) == last_nonempty(parts.take(i as int)),
        decreases i,
    {
        proof {
            assert(parts.take(i as int).drop_last() == parts.take(i - 1));
            assert(parts.take(i as int).last() == segments@[i - 1]@);
        }
        if segments[i - 1].len() > 0 {
            return string_of(&segments[i - 1]);
        }
        i -= 1;
    }
    String::new()
}

/// The local file name under which one object is written: the last segment
/// of its key, renamed until it is none of the names that are taken in the
/// download directory.
pub fn get_object(object: &S3OperationObject, taken: &Vec<String>) -> (name: String)
    ensures
        first_unused(last_segment(object.prefix@), views(taken@), name@),
{
    let file_name = file_name_of(object.prefix.as_str());
    unused_name(file_name.as_str(), taken)
}

/// Where the object of `key` is written in a download of `prefix`.
pub fn plan_file(prefix: &Vec<char>, key: &String) -> (file: FolderFile)
    ensures
        file@ == file_plan(prefix@, key@),
{
    let key_chars = chars_of(key.as_str());
    let relative = without_prefix(&key_chars, prefix);
    let segments = split_on(&relative, DELIMITER);
    proof {
        lemma_split_segments(relative@, DELIMITER);
    }
    let mut directories: Vec<String> = Vec::new();
    let mut i: usize = 0;
    while i + 1 < segments.len()
        invariant
            i + 1 <= segments.len(),
            views(directories@) == views(segments@).take(i as int),
        decreases segments.len() - i,
    {
        let directory = string_of(&segments[i]);
        proof {
            lemma_views_push(directories@, directory);
            assert(views(segments@).take(i + 1) == views(segments@).take(i as int).push(
                segments@[i as int]@,
            ));
        }
        directories.push(directory);
        i += 1;
    }
    assert(views(segments@).take(segments.len() - 1) == views(segments@).drop_last());
    FolderFile { key: key.clone(), directories, file_name: file_name_of(key.as_str()) }
}

/// The plan of a folder download. `keys` are the keys that the store listed
/// below the prefix, `taken` the names that exist in the download
/// directory, and `archive` says whether the directory is packed into an
/// archive afterwards.
pub fn get_folder_object(
    object: &S3OperationObject,
    keys: &Vec<String>,
    taken: &Vec<String>,
    archive: bool,
) -> (plan: FolderDownload)
    ensures
        first_unused(folder_name(object.prefix@), views(taken@), plan.directory@),
        views(plan.files@) == folder_files(object.prefix@, views(keys@)),
        opt_chars(plan.archive) == if archive {
            Some(archive_name(plan.directory@))
        } else {
            None
        },
        plan.token@ == object.prefix@,
{
    let wanted = folder_name_of(object.prefix.as_str());
    let directory = unused_name(wanted.as_str(), taken);
    let prefix = chars_of(object.prefix.as_str());
    let mut files: Vec<FolderFile> = Vec::new();
    let mut i: usize = 0;
    while i < keys.len()
        invariant
            i <= keys.len(),
            prefix@ == object.prefix@,
            views(files@) == folder_files(object.prefix@, views(keys@).take(i as int)),
        decreases keys.len() - i,
    {
        proof {
            let upto = views(keys@).take(i + 1);
            assert(upto.drop_last() == views(keys@).take(i as int));
            assert(upto.last() == keys@[i as int]@);
        }
        let key_chars = chars_of(keys[i].as_str());
        if !has_suffix_char(&key_chars, DELIMITER) {
            let file = plan_file(&prefix, &keys[i]);
            proof {
                lemma_views_push(files@, file);
            }
            files.push(file);
        }
        i += 1;
    }
    assert(views(keys@).take(keys.len() as int) == views(keys@));
    let archive_file = if archive {
        let mut name = directory.clone();
        name.append(".zip");
        Some(name)
    } else {
        None
    };
    FolderDownload { directory, files, archive: archive_file, token: object.prefix.clone() }
}

/// The key under which the local file at `file_path` is uploaded: the last
/// segment of the path, below the prefix where one is given.
pub fn put_object(prefix: &Option<String>, file_path: &str) -> (key: String)
    ensures
        key@ == upload_key(opt_chars(*prefix), last_segment(file_path@)),
{
    let file_name = file_name_of(file_path);
    match prefix {
        Some(p) => {
            let p_chars = chars_of(p.as_str());
            if p_chars.len() > 0 {
                let mut key = p_chars;
                key.push(DELIMITER);
                let name_chars = chars_of(file_name.as_str());
                let key = chain(&key, &name_chars);
                string_of(&key)
            } else {
                file_name
            }
        },
        None => file_name,
    }
}

/// The keys to delete for the targets: the key of each object, and the
/// listed keys of each folder, each key once, in the order in which it is
/// first asked for. A folder that could not be listed is reported and
/// contributes no key.
pub fn delete_objects(targets: &Vec<ExpandedTarget>) -> (plan: DeletePlan)
    ensures
        views(plan.keys@) == without_repeats(requested_keys(views(targets@))),
        views(plan.failed@) == unlisted_folders(views(targets@)),
{
    let mut keys: Vec<String> = Vec::new();
    let mut failed: Vec<String> = Vec::new();
    let mut i: usize = 0;
    while i < targets.len()
        invariant
            i <= targets.len(),
            views(keys@) == without_repeats(requested_keys(views(targets@).take(i as int))),
            views(failed@) == unlisted_folders(views(targets@).take(i as int)),
        decreases targets.len() - i,
    {
        let ghost upto = views(targets@).take(i + 1);
        let ghost done = requested_keys(views(targets@).take(i as int));
        proof {
            assert(upto.drop_last() == views(targets@).take(i as int));
            assert(upto.last() == targets@[i as int]@);
        }
        let target = &targets[i];
        if target.target.is_folder {
            match &target.listed {
                Some(listed) => {
                    let mut j: usize = 0;
                    assert(done + views(listed@).take(0) == done);
                    while j < listed.len()
                        invariant
                            j <= listed.len(),
                            views(keys@) == without_repeats(done + views(listed@).take(j as int)),
                        decreases listed.len() - j,
                    {
                        proof {
                            let next = done + views(listed@).take(j + 1);
                            assert(next.drop_last() == done + views(listed@).take(j as int));
                            assert(next.last() == listed@[j as int]@);
                        }
                        if !is_taken(&keys, &listed[j]) {
                            let key = listed[j].clone();
                            proof {
                                lemma_views_push(keys@, key);
                            }
                            keys.push(key);
                        }
                        j += 1;
                    }
                    assert(views(listed@).take(listed.len() as int) == views(listed@));
                },
                None => {
                    let prefix = target.target.prefix.clone();
                    proof {
                        lemma_views_push(failed@, prefix);
                        assert(done + Seq::<Seq<char>>::empty() == done);
                    }
                    failed.push(prefix);
                },
            }
        } else {
            proof {
                let next = done + seq![target.target.prefix@];
                assert(next.drop_last() == done);
                assert(next.last() == target.target.prefix@);
            }
            if !is_taken(&keys, &target.target.prefix) {
                let key = target.target.prefix.clone();
                proof {
                    lemma_views_push(keys@, key);
                }
                keys.push(key);
            }
        }
        i += 1;
    }
    assert(views(targets@).take(targets.len() as int) == views(targets@));
    DeletePlan { keys, failed }
}

/// The report of a batch of downloads, from the outcome of each target: the
/// path that was written, or the message of the error. A target that failed
/// is reported and does not keep the others from being counted.
pub fn get_objects(outcomes: &Vec<Result<String, String>>) -> (report: BatchReport)
    ensures
        views(report.paths@) == written_paths(outcomes@),
        views(report.failures@) == batch_failures(outcomes@),
{
    let mut paths: Vec<String> = Vec::new();
    let mut failures: Vec<BatchFailure> = Vec::new();
    let mut i: usize = 0;
    while i < outcomes.len()
        invariant
            i <= outcomes.len(),
            views(paths@) == written_paths(outcomes@.take(i as int)),
            views(failures@) == batch_failures(outcomes@.take(i as int)),
        decreases outcomes.len() - i,
    {
        proof {
            let upto = outcomes@.take(i + 1);
            assert(upto.drop_last() == outcomes@.take(i as int));
            assert(upto.last() == outcomes@[i as int]);
        }
        match &outcomes[i] {
            Ok(path) => {
                let path = path.clone();
                proof {
                    lemma_views_push(paths@, path);
                }
                paths.push(path);
            },
            Err(message) => {
                let failure = BatchFailure { index: i, message: message.clone() };
                proof {
                    lemma_views_push(failures@, failure);
                }
                failures.push(failure);
            },
        }
        i += 1;
    }
    assert(outcomes@.take(outcomes.len() as int) == outcomes@);
    BatchReport { paths, failures }
}

} // verus!
