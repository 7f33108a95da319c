//! The order of strings, and sorting by it.
//!
//! Strings are ordered as `String` orders them: character by character, a
//! proper prefix before the longer string.

use vstd::prelude::*;
use vstd::seq_lib::{to_multiset_build, to_multiset_insert};
use crate::text::{chars_of, lemma_views_push, string_of, views};

verus! {

/// `a` stands before `b`, or is `b`.
pub open spec fn lex_le(a: Seq<char>, b: Seq<char>) -> bool
    decreases a.len(),
{
    if a.len() == 0 {
        true
    } else if b.len() == 0 {
        false
    } else if a[0] != b[0] {
        a[0] < b[0]
    } else {
        lex_le(a.drop_first(), b.drop_first())
    }
}

/// Each string stands before those that follow it, or is equal to them.
pub open spec fn is_sorted(s: Seq<Seq<char>>) -> bool {
    forall|i: int, j: int| 0 <= i < j < s.len() ==> lex_le(#[trigger] s[i], #[trigger] s[j])
}

/// Of two strings, one stands before the other, or they are equal.
pub proof fn lemma_lex_le_total(a: Seq<char>, b: Seq<char>)
    ensures
        lex_le(a, b) || lex_le(b, a),
    decreases a.len(),
{
    if a.len() > 0 && b.len() > 0 && a[0] == b[0] {
        lemma_lex_le_total(a.drop_first(), b.drop_first());
    }
}

/// The order is transitive.
pub proof fn lemma_lex_le_trans(a: Seq<char>, b: Seq<char>, c: Seq<char>)
    requires
        lex_le(a, b),
        lex_le(b, c),
    ensures
        lex_le(a, c),
    decreases a.len(),
{
    if a.len() > 0 && b.len() > 0 && c.len() > 0 && a[0] == b[0] && b[0] == c[0] {
        lemma_lex_le_trans(a.drop_first(), b.drop_first(), c.drop_first());
    }
}

/// Two strings that stand before each other are equal.
pub proof fn lemma_lex_le_antisymmetric(a: Seq<char>, b: Seq<char>)
    requires
        lex_le(a, b),
        lex_le(b, a),
    ensures
        a == b,
    decreases a.len(),
{
    if a.len() > 0 && b.len() > 0 {
        lemma_lex_le_antisymmetric(a.drop_first(), b.drop_first());
        assert(a == seq![a[0]] + a.drop_first());
        assert(b == seq![b[0]] + b.drop_first());
    } else {
        assert(a == b);
    }
}

/// Whether `a` stands before `b` or is `b`.
pub fn lex_le_chars(a: &Vec<char>, b: &Vec<char>) -> (r: bool)
    ensures
        r == lex_le(a@, b@),
{
    let mut i: usize = 0;
    assert(a@.skip(0) == a@ && b@.skip(0) == b@);
    while i < a.len() && i < b.len() && a[i] == b[i]
        invariant
            i <= a.len(),
            i <= b.len(),
            lex_le(a@, b@) == lex_le(a@.skip(i as int), b@.skip(i as int)),
        decreases a.len() - i,
    {
        assert(a@.skip(i as int).drop_first() == a@.skip(i + 1));
        assert(b@.skip(i as int).drop_first() == b@.skip(i + 1));
        i += 1;
    }
    if i == a.len() {
        true
    } else if i == b.len() {
        false
    } else {
        a[i] < b[i]
    }
}

/// The strings in ascending order.
pub fn sorted_strings(names: &Vec<String>) -> (r: Vec<String>)
    ensures
        is_sorted(views(r@)),
        views(r@).to_multiset() == views(names@).to_multiset(),
{
    let mut rows: Vec<Vec<char>> = Vec::new();
    let mut i: usize = 0;
    assert(views(rows@) == views(names@).take(0));
    while i < names.len()
        invariant
            i <= names.len(),
            is_sorted(views(rows@)),
            views(rows@).to_multiset() == views(names@).take(i as int).to_multiset(),
        decreases names.len() - i,
    {
        let item = chars_of(names[i].as_str());
        let mut j: usize = 0;
        while j < rows.len() && lex_le_chars(&rows[j], &item)
            invariant
                j <= rows.len(),
                forall|k: int| 0 <= k < j ==> lex_le(#[trigger] views(rows@)[k], item@),
            decreases rows.len() - j,
        {
            j += 1;
        }
        let ghost before = views(rows@);
        rows.insert(j, item);
        proof {
            let after = views(rows@);
            assert(after == before.insert(j as int, item@));
            assert forall|x: int, y: int| 0 <= x < y < after.len() implies lex_le(
                #[trigger] after[x],
                #[trigger] after[y],
            ) by {
                if y == j {
                    assert(after[x] == before[x]);
                } else if x == j {
                    lemma_lex_le_total(before[j as int], item@);
                    if y - 1 > j {
                        assert(lex_le(before[j as int], before[y - 1]));
                        lemma_lex_le_trans(item@, before[j as int], before[y - 1]);
                    }
                } else {
                    let bx = if x < j { x } else { x - 1 };
                    let by = if y < j { y } else { y - 1 };
                    assert(after[x] == before[bx] && after[y] == before[by]);
                    assert(lex_le(before[bx], before[by]));
                }
            }
            to_multiset_insert(before, j as int, item@);
            assert(views(names@).take(i + 1) == views(names@).take(i as int).push(item@));
            to_multiset_build(views(names@).take(i as int), item@);
        }
        i += 1;
    }
    assert(views(names@).take(names.len() as int) == views(names@));
    let mut out: Vec<String> = Vec::new();
    let mut k: usize = 0;
    while k < rows.len()
        invariant
            k <= rows.len(),
            views(out@) == views(rows@).take(k as int),
        decreases rows.len() - k,
    {
        let name = string_of(&rows[k]);
        proof {
            lemma_views_push(out@, name);
            assert(views(rows@).take(k + 1) == views(rows@).take(k as int).push(name@));
        }
        out.push(name);
        k += 1;
    }
    assert(views(rows@).take(rows.len() as int) == views(rows@));
    out
}

} // verus!
