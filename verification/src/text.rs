//! Character-level string operations shared by the parser, the projector and
//! the transfer planner.
//!
//! Every string is reasoned about through its view, a `Seq<char>`. The
//! executable functions work on `Vec<char>`; `chars_of` and `string_of`
//! convert at the boundary.

use vstd::prelude::*;

verus! {

/// The delimiter that separates the segments of an object key.
pub const DELIMITER: char = '/';

/// `String::push` appends exactly one character to the end of the string.
pub assume_specification[ String::push ](s: &mut String, c: char)
    ensures
        final(s)@ == old(s)@.push(c),
;

/// The views of the elements of `v`, in order.
pub open spec fn views<T: View>(v: Seq<T>) -> Seq<T::V> {
    Seq::new(v.len(), |i: int| v[i]@)
}

/// Index of the first occurrence of `c` in `s`, or `s.len()` if there is none.
pub open spec fn first_index<T>(s: Seq<T>, c: T) -> int
    decreases s.len(),
{
    if s.len() == 0 {
        0
    } else if s[0] == c {
        0
    } else {
        1 + first_index(s.drop_first(), c)
    }
}

/// Index of the last occurrence of `c` in `s`, or `-1` if there is none.
pub open spec fn last_index<T>(s: Seq<T>, c: T) -> int
    decreases s.len(),
{
    if s.len() == 0 {
        -1
    } else if s.last() == c {
        s.len() - 1
    } else {
        last_index(s.drop_last(), c)
    }
}

/// The segments of `s` between occurrences of `c`. There is always at least
/// one segment; an empty string has the single empty segment.
pub open spec fn split(s: Seq<char>, c: char) -> Seq<Seq<char>>
    decreases s.len(),
{
    let i = first_index(s, c);
    if 0 <= i < s.len() {
        seq![s.take(i)] + split(s.skip(i + 1), c)
    } else {
        seq![s]
    }
}

/// The segments written one after the other with `c` between neighbours.
pub open spec fn join(parts: Seq<Seq<char>>, c: char) -> Seq<char>
    decreases parts.len(),
{
    if parts.len() == 0 {
        Seq::empty()
    } else if parts.len() == 1 {
        parts[0]
    } else {
        parts[0] + seq![c] + join(parts.drop_first(), c)
    }
}

/// `p` is a prefix of `s`.
pub open spec fn starts_with(s: Seq<char>, p: Seq<char>) -> bool {
    p.len() <= s.len() && s.take(p.len() as int) == p
}

/// `s` without its leading `p`; `s` itself where `p` is not a prefix of it.
pub open spec fn strip_prefix(s: Seq<char>, p: Seq<char>) -> Seq<char> {
    if starts_with(s, p) {
        s.skip(p.len() as int)
    } else {
        s
    }
}

/// The last character of `s` is `c`.
pub open spec fn ends_with(s: Seq<char>, c: char) -> bool {
    s.len() > 0 && s.last() == c
}

/// The characters with the Unicode property `White_Space`.
pub open spec fn is_space(c: char) -> bool {
    let n = c as u32;
    ||| 0x09 <= n <= 0x0D
    ||| n == 0x20
    ||| n == 0x85
    ||| n == 0xA0
    ||| n == 0x1680
    ||| 0x2000 <= n <= 0x200A
    ||| n == 0x2028
    ||| n == 0x2029
    ||| n == 0x202F
    ||| n == 0x205F
    ||| n == 0x3000
}

/// `s` without its leading white space.
pub open spec fn trim_start(s: Seq<char>) -> Seq<char>
    decreases s.len(),
{
    if s.len() > 0 && is_space(s[0]) {
        trim_start(s.drop_first())
    } else {
        s
    }
}

/// `s` without its trailing white space.
pub open spec fn trim_end(s: Seq<char>) -> Seq<char>
    decreases s.len(),
{
    if s.len() > 0 && is_space(s.last()) {
        trim_end(s.drop_last())
    } else {
        s
    }
}

/// `s` without leading and trailing white space.
pub open spec fn trim(s: Seq<char>) -> Seq<char> {
    trim_end(trim_start(s))
}

/// Each segment trimmed.
pub open spec fn trim_all(parts: Seq<Seq<char>>) -> Seq<Seq<char>> {
    Seq::new(parts.len(), |i: int| trim(parts[i]))
}

/// `s` with `x` at the end, unless `s` holds `x`.
pub open spec fn push_new<T>(s: Seq<T>, x: T) -> Seq<T> {
    if s.contains(x) {
        s
    } else {
        s.push(x)
    }
}

/// `s` with each element kept where it occurs first.
pub open spec fn without_repeats<T>(s: Seq<T>) -> Seq<T>
    decreases s.len(),
{
    if s.len() == 0 {
        Seq::empty()
    } else {
        push_new(without_repeats(s.drop_last()), s.last())
    }
}

/// Removing repeats keeps exactly the elements and leaves none twice.
pub proof fn lemma_without_repeats<T>(s: Seq<T>)
    ensures
        without_repeats(s).no_duplicates(),
        forall|x: T| #[trigger] without_repeats(s).contains(x) <==> s.contains(x),
    decreases s.len(),
{
    if s.len() > 0 {
        let before = s.drop_last();
        lemma_without_repeats(before);
        let r = without_repeats(before);
        let out = without_repeats(s);
        assert forall|x: T| #[trigger] out.contains(x) <==> s.contains(x) by {
            if s.contains(x) {
                let i = s.index_of(x);
                if i < s.len() - 1 {
                    assert(before[i] == x);
                    assert(before.contains(x));
                    assert(r.contains(x));
                    let j = r.index_of(x);
                    assert(out[j] == x);
                } else if !r.contains(x) {
                    assert(out[r.len() as int] == x);
                } else {
                    let j = r.index_of(x);
                    assert(out[j] == x);
                }
            }
            if out.contains(x) {
                let j = out.index_of(x);
                if j < r.len() {
                    assert(r[j] == x);
                    assert(r.contains(x));
                    assert(before.contains(x));
                    let i = before.index_of(x);
                    assert(s[i] == x);
                } else {
                    assert(s[s.len() - 1] == x);
                }
            }
        }
    }
}

/// Taking one more element adds that element at the end.
pub proof fn lemma_take_next<T>(s: Seq<T>, i: int)
    requires
        0 <= i < s.len(),
    ensures
        s.take(i + 1) == s.take(i).push(s[i]),
        s.take(i + 1).drop_last() == s.take(i),
        s.take(i + 1).last() == s[i],
        forall|x: T| s.take(i + 1).contains(x) <==> s.take(i).contains(x) || x == s[i],
{
    assert(s.take(i + 1) == s.take(i).push(s[i]));
    assert(s.take(i + 1).drop_last() == s.take(i));
    assert forall|x: T| s.take(i + 1).contains(x) <==> s.take(i).contains(x) || x == s[i] by {
        if s.take(i).contains(x) {
            let k = s.take(i).index_of(x);
            assert(s.take(i + 1)[k] == x);
        }
        if x == s[i] {
            assert(s.take(i + 1)[i] == x);
        }
        if s.take(i + 1).contains(x) {
            let k = s.take(i + 1).index_of(x);
            if k < i {
                assert(s.take(i)[k] == x);
            }
        }
    }
}

/// The view of an optional string.
pub open spec fn opt_chars(o: Option<String>) -> Option<Seq<char>> {
    match o {
        Some(s) => Some(s@),
        None => None,
    }
}

/// Pushing an element and taking views commute.
pub proof fn lemma_views_push<T: View>(v: Seq<T>, x: T)
    ensures
        views(v.push(x)) == views(v).push(x@),
{
}

/// `first_index` is in range, points at `c` when it is inside `s`, and
/// nothing before it is `c`.
pub proof fn lemma_first_index<T>(s: Seq<T>, c: T)
    ensures
        0 <= first_index(s, c) <= s.len(),
        first_index(s, c) < s.len() ==> s[first_index(s, c)] == c,
        forall|k: int| 0 <= k < first_index(s, c) ==> s[k] != c,
        first_index(s, c) == s.len() <==> !s.contains(c),
    decreases s.len(),
{
    if s.len() == 0 {
    } else if s[0] == c {
    } else {
        let t = s.drop_first();
        lemma_first_index(t, c);
        assert forall|k: int| 0 <= k < first_index(s, c) implies s[k] != c by {
            if k > 0 {
                assert(s[k] == t[k - 1]);
            }
        }
        if first_index(s, c) == s.len() {
            assert forall|k: int| 0 <= k < s.len() implies s[k] != c by {}
        } else {
            assert(s[first_index(s, c)] == t[first_index(t, c)]);
        }
    }
}

/// The position of a `c` with no `c` before it is the first index.
pub proof fn lemma_first_index_is<T>(s: Seq<T>, c: T, j: int)
    requires
        0 <= j <= s.len(),
        j < s.len() ==> s[j] == c,
        forall|k: int| 0 <= k < j ==> s[k] != c,
    ensures
        first_index(s, c) == j,
{
    lemma_first_index(s, c);
    let i = first_index(s, c);
    if i < j {
        assert(s[i] == c);
    } else if i > j {
        assert(s[j] == c);
    }
}

/// `last_index` is in range, points at `c` when it is inside `s`, and
/// nothing after it is `c`.
pub proof fn lemma_last_index<T>(s: Seq<T>, c: T)
    ensures
        -1 <= last_index(s, c) < s.len(),
        last_index(s, c) >= 0 ==> s[last_index(s, c)] == c,
        forall|k: int| last_index(s, c) < k < s.len() ==> s[k] != c,
        last_index(s, c) == -1 <==> !s.contains(c),
    decreases s.len(),
{
    if s.len() == 0 {
    } else if s.last() == c {
    } else {
        let t = s.drop_last();
        lemma_last_index(t, c);
        assert forall|k: int| last_index(s, c) < k < s.len() implies s[k] != c by {
            if k < s.len() - 1 {
                assert(s[k] == t[k]);
            }
        }
        if last_index(s, c) == -1 {
            assert forall|k: int| 0 <= k < s.len() implies s[k] != c by {
                if k < s.len() - 1 {
                    assert(s[k] == t[k]);
                }
            }
        } else {
            assert(s[last_index(s, c)] == t[last_index(t, c)]);
        }
    }
}

/// The position of a `c` with no `c` after it is the last index.
pub proof fn lemma_last_index_is<T>(s: Seq<T>, c: T, j: int)
    requires
        -1 <= j < s.len(),
        j >= 0 ==> s[j] == c,
        forall|k: int| j < k < s.len() ==> s[k] != c,
    ensures
        last_index(s, c) == j,
{
    lemma_last_index(s, c);
    let i = last_index(s, c);
    if i < j {
        assert(s[j] == c);
    } else if i > j {
        assert(s[i] == c);
    }
}

/// A split has at least one segment, and no segment holds the separator.
pub proof fn lemma_split_segments(s: Seq<char>, c: char)
    ensures
        split(s, c).len() >= 1,
        forall|i: int| 0 <= i < split(s, c).len() ==> !(#[trigger] split(s, c)[i]).contains(c),
        split(s, c).len() == 1 <==> !s.contains(c),
        split(s, c)[0] == s.take(first_index(s, c)),
    decreases s.len(),
{
    lemma_first_index(s, c);
    let i = first_index(s, c);
    if 0 <= i < s.len() {
        let rest = s.skip(i + 1);
        lemma_split_segments(rest, c);
        assert forall|k: int| 0 <= k < split(s, c).len() implies !(#[trigger] split(s, c)[k]).contains(c) by {
            if k == 0 {
                assert(split(s, c)[0] == s.take(i));
            } else {
                assert(split(s, c)[k] == split(rest, c)[k - 1]);
            }
        }
        assert(s[i] == c);
    } else {
        assert(s.take(i) == s);
    }
}

/// Joining the segments of a split with the separator gives the string back.
pub proof fn lemma_join_split(s: Seq<char>, c: char)
    ensures
        join(split(s, c), c) == s,
    decreases s.len(),
{
    lemma_first_index(s, c);
    let i = first_index(s, c);
    if 0 <= i < s.len() {
        let rest = s.skip(i + 1);
        lemma_join_split(rest, c);
        lemma_split_segments(rest, c);
        let parts = split(s, c);
        assert(parts.drop_first() == split(rest, c));
        assert(parts[0] == s.take(i));
        assert(s.take(i) + seq![c] + rest == s);
    } else {
    }
}

/// The last segment of a split is what follows the last separator.
pub proof fn lemma_last_segment(s: Seq<char>, c: char)
    ensures
        split(s, c).last() == s.skip(last_index(s, c) + 1),
    decreases s.len(),
{
    lemma_first_index(s, c);
    lemma_last_index(s, c);
    let i = first_index(s, c);
    if 0 <= i < s.len() {
        let rest = s.skip(i + 1);
        lemma_last_segment(rest, c);
        lemma_last_index(rest, c);
        lemma_split_segments(rest, c);
        let j = i + 1 + last_index(rest, c);
        assert forall|k: int| j < k < s.len() implies s[k] != c by {
            assert(s[k] == rest[k - i - 1]);
        }
        if last_index(rest, c) >= 0 {
            assert(s[j] == rest[last_index(rest, c)]);
        }
        lemma_last_index_is(s, c, j);
        assert(split(s, c).last() == split(rest, c).last());
        assert(rest.skip(last_index(rest, c) + 1) == s.skip(j + 1));
    } else {
        assert(s.skip(0) == s);
    }
}

/// A string that neither starts nor ends with white space is its own trim.
pub proof fn lemma_trim_identity(s: Seq<char>)
    requires
        s.len() > 0 ==> !is_space(s[0]) && !is_space(s.last()),
    ensures
        trim(s) == s,
{
}

/// Every character of a segment is a character of the string.
pub proof fn lemma_split_chars(s: Seq<char>, c: char)
    ensures
        forall|i: int, k: int|
            0 <= i < split(s, c).len() && 0 <= k < split(s, c)[i].len() ==> s.contains(
                #[trigger] split(s, c)[i][k],
            ),
    decreases s.len(),
{
    lemma_first_index(s, c);
    let at = first_index(s, c);
    if 0 <= at < s.len() {
        let rest = s.skip(at + 1);
        lemma_split_chars(rest, c);
        assert forall|i: int, k: int|
            0 <= i < split(s, c).len() && 0 <= k < split(s, c)[i].len() implies s.contains(
            #[trigger] split(s, c)[i][k],
        ) by {
            if i == 0 {
                assert(split(s, c)[0] == s.take(at));
                assert(s[k] == split(s, c)[0][k]);
            } else {
                assert(split(s, c)[i] == split(rest, c)[i - 1]);
                let x = split(rest, c)[i - 1][k];
                assert(rest.contains(x));
                let j = rest.index_of(x);
                assert(s[at + 1 + j] == x);
            }
        }
    } else {
        assert forall|i: int, k: int|
            0 <= i < split(s, c).len() && 0 <= k < split(s, c)[i].len() implies s.contains(
            #[trigger] split(s, c)[i][k],
        ) by {
            assert(s[k] == split(s, c)[i][k]);
        }
    }
}

/// A string without the separator, the separator and a second string split
/// into the first string and the segments of the second.
pub proof fn lemma_split_after(head: Seq<char>, tail: Seq<char>, c: char)
    requires
        !head.contains(c),
    ensures
        split(head + seq![c] + tail, c) == seq![head] + split(tail, c),
{
    let s = head + seq![c] + tail;
    assert forall|k: int| 0 <= k < head.len() implies s[k] != c by {
        assert(s[k] == head[k]);
        if head[k] == c {
            assert(head.contains(c));
        }
    }
    assert(s[head.len() as int] == c);
    lemma_first_index_is(s, c, head.len() as int);
    assert(s.take(head.len() as int) == head);
    assert(s.skip(head.len() as int + 1) == tail);
}

/// The executable test for white space.
pub fn is_space_char(c: char) -> (r: bool)
    ensures
        r == is_space(c),
{
    let n: u32 = c as u32;
    (0x09 <= n && n <= 0x0D) || n == 0x20 || n == 0x85 || n == 0xA0 || n == 0x1680 || (0x2000 <= n
        && n <= 0x200A) || n == 0x2028 || n == 0x2029 || n == 0x202F || n == 0x205F || n == 0x3000
}

/// The characters of `s`, in order.
pub fn chars_of(s: &str) -> (v: Vec<char>)
    ensures
        v@ == s@,
{
    broadcast use vstd::string::axiom_spec_iter;

    let mut v: Vec<char> = Vec::new();
    for c in it: s.chars()
        invariant
            it.seq() == s@,
            v@ == s@.take(it.index()),
    {
        v.push(c);
    }
    v
}

/// The string made of the characters of `v`, in order.
pub fn string_of(v: &Vec<char>) -> (s: String)
    ensures
        s@ == v@,
{
    let mut s = String::new();
    let mut i: usize = 0;
    while i < v.len()
        invariant
            i <= v.len(),
            s@ == v@.take(i as int),
        decreases v.len() - i,
    {
        s.push(v[i]);
        i += 1;
    }
    s
}

/// Whether two character vectors hold the same characters.
pub fn same_chars(a: &Vec<char>, b: &Vec<char>) -> (r: bool)
    ensures
        r == (a@ == b@),
{
    if a.len() != b.len() {
        return false;
    }
    let mut i: usize = 0;
    while i < a.len()
        invariant
            i <= a.len(),
            a.len() == b.len(),
            a@.take(i as int) == b@.take(i as int),
        decreases a.len() - i,
    {
        if a[i] != b[i] {
            return false;
        }
        assert(a@.take(i + 1) == a@.take(i as int).push(a@[i as int]));
        assert(b@.take(i + 1) == b@.take(i as int).push(b@[i as int]));
        i += 1;
    }
    assert(a@ == a@.take(a.len() as int));
    assert(b@ == b@.take(b.len() as int));
    true
}

/// The characters of `s` from `from` up to, not including, `to`.
pub fn slice_of(s: &Vec<char>, from: usize, to: usize) -> (r: Vec<char>)
    requires
        from <= to <= s.len(),
    ensures
        r@ == s@.subrange(from as int, to as int),
{
    let mut r: Vec<char> = Vec::new();
    let mut i: usize = from;
    while i < to
        invariant
            from <= i <= to <= s.len(),
            r@ == s@.subrange(from as int, i as int),
        decreases to - i,
    {
        r.push(s[i]);
        i += 1;
    }
    r
}

/// `a` followed by `b`.
pub fn chain(a: &Vec<char>, b: &Vec<char>) -> (r: Vec<char>)
    ensures
        r@ == a@ + b@,
{
    let mut r: Vec<char> = a.clone();
    let mut i: usize = 0;
    while i < b.len()
        invariant
            i <= b.len(),
            r@ == a@ + b@.take(i as int),
        decreases b.len() - i,
    {
        r.push(b[i]);
        i += 1;
    }
    assert(b@.take(b.len() as int) == b@);
    r
}

/// The index of the first `c` in `s`, or the length of `s`.
pub fn find_char(s: &Vec<char>, c: char) -> (r: usize)
    ensures
        r == first_index(s@, c),
{
    let mut i: usize = 0;
    while i < s.len() && s[i] != c
        invariant
            i <= s.len(),
            forall|k: int| 0 <= k < i ==> s@[k] != c,
        decreases s.len() - i,
    {
        i += 1;
    }
    proof {
        lemma_first_index_is(s@, c, i as int);
    }
    i
}

/// The index of the last `c` in `s`, if there is one.
pub fn rfind_char(s: &Vec<char>, c: char) -> (r: Option<usize>)
    ensures
        match r {
            Some(i) => last_index(s@, c) == i,
            None => last_index(s@, c) == -1,
        },
{
    let mut i: usize = s.len();
    while i > 0 && s[i - 1] != c
        invariant
            i <= s.len(),
            forall|k: int| i <= k < s.len() ==> s@[k] != c,
        decreases i,
    {
        i -= 1;
    }
    proof {
        lemma_last_index_is(s@, c, i as int - 1);
    }
    if i == 0 {
        None
    } else {
        Some(i - 1)
    }
}

/// Whether `s` holds `c`.
pub fn has_char(s: &Vec<char>, c: char) -> (r: bool)
    ensures
        r == s@.contains(c),
{
    proof {
        lemma_first_index(s@, c);
    }
    find_char(s, c) < s.len()
}

/// The segments of `s` between occurrences of `c`.
pub fn split_on(s: &Vec<char>, c: char) -> (parts: Vec<Vec<char>>)
    ensures
        views(parts@) == split(s@, c),
{
    let mut parts: Vec<Vec<char>> = Vec::new();
    let mut cur: Vec<char> = Vec::new();
    let mut start: usize = 0;
    let mut i: usize = 0;
    assert(s@.skip(0) == s@);
    while i < s.len()
        invariant
            start <= i <= s.len(),
            cur@ == s@.subrange(start as int, i as int),
            forall|k: int| start <= k < i ==> s@[k] != c,
            split(s@, c) == views(parts@) + split(s@.skip(start as int), c),
        decreases s.len() - i,
    {
        if s[i] == c {
            proof {
                let t = s@.skip(start as int);
                lemma_first_index_is(t, c, i - start);
                assert(t.take(i - start) == cur@);
                assert(t.skip(i - start + 1) == s@.skip(i + 1));
                assert(views(parts@.push(cur)) == views(parts@).push(cur@));
            }
            parts.push(cur);
            cur = Vec::new();
            start = i + 1;
        } else {
            cur.push(s[i]);
        }
        i += 1;
    }
    proof {
        let t = s@.skip(start as int);
        lemma_first_index_is(t, c, t.len() as int);
        assert(t == cur@);
        assert(views(parts@.push(cur)) == views(parts@).push(cur@));
    }
    parts.push(cur);
    parts
}

/// The segments written one after the other with `c` between neighbours.
pub fn join_with(parts: &Vec<Vec<char>>, c: char) -> (r: Vec<char>)
    ensures
        r@ == join(views(parts@), c),
{
    let mut r: Vec<char> = Vec::new();
    let mut i: usize = parts.len();
    let ghost all = views(parts@);
    assert(all.skip(all.len() as int) == Seq::<Seq<char>>::empty());
    while i > 0
        invariant
            i <= parts.len(),
            all == views(parts@),
            r@ == join(all.skip(i as int), c),
        decreases i,
    {
        i -= 1;
        proof {
            let tail = all.skip(i as int);
            assert(tail.drop_first() == all.skip(i + 1));
            assert(tail[0] == parts@[i as int]@);
        }
        if i + 1 == parts.len() {
            r = parts[i].clone();
        } else {
            let mut head: Vec<char> = parts[i].clone();
            head.push(c);
            let ghost before = r@;
            r = chain(&head, &r);
            assert(r@ == parts@[i as int]@ + seq![c] + before);
        }
    }
    assert(all.skip(0) == all);
    r
}

/// Whether `p` is a prefix of `s`.
pub fn has_prefix(s: &Vec<char>, p: &Vec<char>) -> (r: bool)
    ensures
        r == starts_with(s@, p@),
{
    if p.len() > s.len() {
        return false;
    }
    let head = slice_of(s, 0, p.len());
    same_chars(&head, p)
}

/// `s` without its leading `p`; `s` itself where `p` is not a prefix of it.
pub fn without_prefix(s: &Vec<char>, p: &Vec<char>) -> (r: Vec<char>)
    ensures
        r@ == strip_prefix(s@, p@),
{
    if has_prefix(s, p) {
        slice_of(s, p.len(), s.len())
    } else {
        s.clone()
    }
}

/// Whether the last character of `s` is `c`.
pub fn has_suffix_char(s: &Vec<char>, c: char) -> (r: bool)
    ensures
        r == ends_with(s@, c),
{
    s.len() > 0 && s[s.len() - 1] == c
}

/// `s` without leading and trailing white space.
pub fn trimmed(s: &Vec<char>) -> (r: Vec<char>)
    ensures
        r@ == trim(s@),
{
    let mut from: usize = 0;
    assert(s@.skip(0) == s@);
    while from < s.len() && is_space_char(s[from])
        invariant
            from <= s.len(),
            trim_start(s@) == trim_start(s@.skip(from as int)),
        decreases s.len() - from,
    {
        assert(s@.skip(from as int).drop_first() == s@.skip(from + 1));
        from += 1;
    }
    let mut to: usize = s.len();
    assert(s@.subrange(from as int, to as int) == s@.skip(from as int));
    while to > from && is_space_char(s[to - 1])
        invariant
            from <= to <= s.len(),
            trim(s@) == trim_end(s@.subrange(from as int, to as int)),
        decreases to,
    {
        assert(s@.subrange(from as int, to as int).drop_last() == s@.subrange(
            from as int,
            to - 1,
        ));
        to -= 1;
    }
    slice_of(s, from, to)
}

} // verus!
