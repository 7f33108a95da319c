//! What a listing of a local directory shows.

use vstd::prelude::*;
use crate::text::{
    chars_of, ends_with, has_suffix_char, slice_of, string_of, strip_prefix, without_prefix,
    DELIMITER,
};

verus! {

/// One entry of a local directory, as it is shown.
pub struct GetFileResponse {
    pub is_dir: bool,
    pub name: String,
    pub file_size: u64,
    pub permission: String,
    pub user: String,
    pub group: String,
    pub update_at: String,
}

/// What was read of one entry of a local directory.
pub struct FileMeta {
    pub path: String,
    pub is_dir: bool,
    pub size: u64,
    pub mode: u32,
    pub user: String,
    pub group: String,
    pub update_at: String,
}

/// The mathematical value of a `GetFileResponse`.
pub struct FileView {
    pub is_dir: bool,
    pub name: Seq<char>,
    pub file_size: u64,
    pub permission: Seq<char>,
    pub user: Seq<char>,
    pub group: Seq<char>,
    pub update_at: Seq<char>,
}

impl View for GetFileResponse {
    type V = FileView;

    open spec fn view(&self) -> FileView {
        FileView {
            is_dir: self.is_dir,
            name: self.name@,
            file_size: self.file_size,
            permission: self.permission@,
            user: self.user@,
            group: self.group@,
            update_at: self.update_at@,
        }
    }
}

/// The type and the permissions of a file mode as a listing writes them,
/// such as `-rw-r--r--`.
pub uninterp spec fn mode_text(mode: u32) -> Seq<char>;

/// What `strmode::strmode` writes for a file mode.
#[verifier::external_body]
fn permission_text(mode: u32) -> (r: String)
    ensures
        r@ == mode_text(mode),
{
    strmode::strmode(mode)
}

/// The directory to list for a name that the user gave: the name without
/// its last character where that is the delimiter, unless the name is the
/// delimiter alone.
pub open spec fn listing_target(dir_name: Seq<char>) -> Seq<char> {
    if ends_with(dir_name, DELIMITER) && dir_name.len() != 1 {
        dir_name.drop_last()
    } else {
        dir_name
    }
}

/// What precedes the name of an entry in its path: the directory and the
/// delimiter, or the delimiter alone for the root.
pub open spec fn entry_prefix(directory: Seq<char>) -> Seq<char> {
    if directory == seq![DELIMITER] {
        directory
    } else {
        directory.push(DELIMITER)
    }
}

/// The name of an entry: its path without the directory that it lies in.
pub open spec fn entry_name(path: Seq<char>, directory: Seq<char>) -> Seq<char> {
    strip_prefix(path, entry_prefix(directory))
}

/// The directory to list for a name that the user gave.
pub fn get_files_target(dir_name: &str) -> (target: String)
    ensures
        target@ == listing_target(dir_name@),
{
    let name = chars_of(dir_name);
    if has_suffix_char(&name, DELIMITER) && name.len() != 1 {
        let target = slice_of(&name, 0, name.len() - 1);
        assert(target@ == name@.drop_last());
        string_of(&target)
    } else {
        string_of(&name)
    }
}

/// The name of the entry at `path` in the listing of `directory`.
pub fn file_line_name(path: &str, directory: &str) -> (name: String)
    ensures
        name@ == entry_name(path@, directory@),
{
    let path = chars_of(path);
    let mut prefix = chars_of(directory);
    if !(prefix.len() == 1 && prefix[0] == DELIMITER) {
        prefix.push(DELIMITER);
    } else {
        assert(prefix@ == seq![DELIMITER]);
    }
    string_of(&without_prefix(&path, &prefix))
}

/// What is shown of an entry in the listing of `directory`: its name
/// without the directory, its mode as text, and the rest as it was read.
pub fn file_response(meta: FileMeta, directory: &str) -> (r: GetFileResponse)
    ensures
        r@ == (FileView {
            is_dir: meta.is_dir,
            name: entry_name(meta.path@, directory@),
            file_size: meta.size,
            permission: mode_text(meta.mode),
            user: meta.user@,
            group: meta.group@,
            update_at: meta.update_at@,
        }),
{
    GetFileResponse {
        is_dir: meta.is_dir,
        name: file_line_name(meta.path.as_str(), directory),
        file_size: meta.size,
        permission: permission_text(meta.mode),
        user: meta.user,
        group: meta.group,
        update_at: meta.update_at,
    }
}

} // verus!
