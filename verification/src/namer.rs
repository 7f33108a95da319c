//! Names for local files and directories that collide with nothing that is
//! already there.

use vstd::prelude::*;
use crate::text::{
    chain, chars_of, last_index, lemma_last_index, rfind_char, slice_of, string_of, views,
};

verus! {

/// The mark that a renamed file or directory carries.
pub open spec fn copy_mark() -> Seq<char> {
    "_copy"@
}

/// The character that separates a file's stem from its extension.
pub const EXTENSION_DOT: char = '.';

/// Where the extension of `name` starts: the index of its last dot, if that
/// dot is not the first character. A name without such a dot has no
/// extension.
pub open spec fn extension_start(name: Seq<char>) -> Option<int> {
    if last_index(name, EXTENSION_DOT) > 0 {
        Some(last_index(name, EXTENSION_DOT))
    } else {
        None
    }
}

/// The next name to try for `name`: the mark is put after the stem, before
/// the dot of the extension, or at the end where there is no extension.
pub open spec fn copy_name(name: Seq<char>) -> Seq<char> {
    match extension_start(name) {
        Some(d) => name.take(d) + copy_mark() + name.skip(d),
        None => name + copy_mark(),
    }
}

/// The name after `n` renamings.
pub open spec fn nth_copy(name: Seq<char>, n: nat) -> Seq<char>
    decreases n,
{
    if n == 0 {
        name
    } else {
        copy_name(nth_copy(name, (n - 1) as nat))
    }
}

/// The length of the longest of the names.
pub open spec fn max_len(names: Seq<Seq<char>>) -> nat
    decreases names.len(),
{
    if names.len() == 0 {
        0
    } else if names.last().len() > max_len(names.drop_last()) {
        names.last().len()
    } else {
        max_len(names.drop_last())
    }
}

/// No name is longer than the longest.
pub proof fn lemma_max_len(names: Seq<Seq<char>>, i: int)
    requires
        0 <= i < names.len(),
    ensures
        names[i].len() <= max_len(names),
    decreases names.len(),
{
    if i < names.len() - 1 {
        lemma_max_len(names.drop_last(), i);
    }
}

/// Renaming makes a name longer by the length of the mark.
pub proof fn lemma_copy_name_len(name: Seq<char>)
    ensures
        copy_name(name).len() == name.len() + 5,
{
    reveal_strlit("_copy");
    lemma_last_index(name, EXTENSION_DOT);
}

/// `r` is the first of `name`, its renaming, the renaming of that, and so on,
/// that is not among `taken`.
pub open spec fn first_unused(name: Seq<char>, taken: Seq<Seq<char>>, r: Seq<char>) -> bool {
    &&& !taken.contains(r)
    &&& exists|n: nat|
        r == nth_copy(name, n) && forall|m: nat|
            m < n ==> taken.contains(#[trigger] nth_copy(name, m))
}

/// From the name after `n` renamings on, some renaming is not taken.
proof fn lemma_search_ends(name: Seq<char>, taken: Seq<Seq<char>>, n: nat)
    requires
        forall|m: nat| m < n ==> taken.contains(#[trigger] nth_copy(name, m)),
    ensures
        exists|r: Seq<char>| first_unused(name, taken, r),
    decreases max_len(taken) + 5 - nth_copy(name, n).len(),
{
    let current = nth_copy(name, n);
    if taken.contains(current) {
        let i = taken.index_of(current);
        lemma_max_len(taken, i);
        lemma_copy_name_len(current);
        assert(nth_copy(name, n + 1) == copy_name(current));
        lemma_search_ends(name, taken, n + 1);
    } else {
        assert(first_unused(name, taken, current));
    }
}

/// Whatever names are taken, the renamings of a name reach one that is
/// not: the taken names are finitely many, and each renaming is longer than
/// the one before.
pub proof fn lemma_first_unused_exists(name: Seq<char>, taken: Seq<Seq<char>>)
    ensures
        exists|r: Seq<char>| first_unused(name, taken, r),
{
    lemma_search_ends(name, taken, 0);
}

/// Whether `name` is one of `names`.
pub fn is_taken(names: &Vec<String>, name: &String) -> (r: bool)
    ensures
        r == views(names@).contains(name@),
{
    let mut i: usize = 0;
    while i < names.len()
        invariant
            i <= names.len(),
            forall|k: int| 0 <= k < i ==> views(names@)[k] != name@,
        decreases names.len() - i,
    {
        if names[i] == *name {
            assert(views(names@)[i as int] == name@);
            return true;
        }
        i += 1;
    }
    false
}

/// The next name to try for a name that is taken.
pub fn new_name(name: &str) -> (r: String)
    ensures
        r@ == copy_name(name@),
{
    let name = chars_of(name);
    let mark = chars_of("_copy");
    proof {
        lemma_last_index(name@, EXTENSION_DOT);
    }
    let renamed = match rfind_char(&name, EXTENSION_DOT) {
        Some(d) => {
            if d > 0 {
                let stem = slice_of(&name, 0, d);
                let extension = slice_of(&name, d, name.len());
                let marked = chain(&stem, &mark);
                chain(&marked, &extension)
            } else {
                chain(&name, &mark)
            }
        },
        None => chain(&name, &mark),
    };
    string_of(&renamed)
}

/// The first of `name`, its renaming, the renaming of that, and so on, that
/// is not among `taken`.
pub fn unused_name(name: &str, taken: &Vec<String>) -> (r: String)
    ensures
        first_unused(name@, views(taken@), r@),
{
    let mut current: String = name.to_string();
    let mut taken_now = is_taken(taken, &current);
    let ghost mut n: nat = 0;
    while taken_now
        invariant
            taken_now == views(taken@).contains(current@),
            current@ == nth_copy(name@, n),
            forall|m: nat| m < n ==> views(taken@).contains(#[trigger] nth_copy(name@, m)),
        decreases max_len(views(taken@)) + 5 - current@.len(),
    {
        proof {
            let i = choose|i: int| 0 <= i < views(taken@).len() && views(taken@)[i] == current@;
            lemma_max_len(views(taken@), i);
            lemma_copy_name_len(current@);
            n = n + 1;
        }
        current = new_name(current.as_str());
        taken_now = is_taken(taken, &current);
    }
    current
}

} // verus!
