//! The mathematical model: a bag of characters, and what it means to list it.
//!
//! Everything an analyzer reports is a function of the bag of characters it has
//! been given. This module defines those functions and proves the facts about
//! them that the executable code relies on.

use crate::kind::{classify, CharKind};
use vstd::multiset::Multiset;
use vstd::prelude::*;
use vstd::seq_lib::{lemma_multiset_commutative, to_multiset_build};
use vstd::set_lib::{lemma_int_range, lemma_len_subset, lemma_map_size, set_int_range};

verus! {

/// The characters of `bag` that belong to `kind`, each as often as in `bag`.
pub open spec fn of_kind(bag: Multiset<char>, kind: CharKind) -> Multiset<char> {
    bag.filter(|c: char| classify(c) == kind)
}

/// How many characters of `kind` the bag holds, repeats included.
pub open spec fn total(bag: Multiset<char>, kind: CharKind) -> nat {
    of_kind(bag, kind).len()
}

/// How many different characters of `kind` the bag holds.
pub open spec fn unique(bag: Multiset<char>, kind: CharKind) -> nat {
    of_kind(bag, kind).dom().len()
}

/// `rows` is a frequency table of `bag`: every character of the bag stands in
/// exactly one row, next to the number of its occurrences, and no row stands
/// for a character that the bag lacks.
pub open spec fn is_table_of(rows: Seq<(char, u32)>, bag: Multiset<char>) -> bool {
    &&& forall|i: int, j: int|
        0 <= i < j < rows.len() ==> (#[trigger] rows[i]).0 != (#[trigger] rows[j]).0
    &&& forall|i: int|
        0 <= i < rows.len() ==> (#[trigger] rows[i]).1 > 0 && bag.count(rows[i].0) == rows[i].1
    &&& forall|c: char|
        #![trigger bag.count(c)]
        bag.count(c) > 0 ==> exists|i: int| 0 <= i < rows.len() && (#[trigger] rows[i]).0 == c
}

/// The rows stand in order of their counts, smallest first.
pub open spec fn sorted_by_count(rows: Seq<(char, u32)>) -> bool {
    forall|i: int, j: int| 0 <= i <= j < rows.len() ==> rows[i].1 <= rows[j].1
}

/// The rows of `rows` whose count is `n`, in the order in which they stand.
pub open spec fn with_count(rows: Seq<(char, u32)>, n: u32) -> Seq<(char, u32)> {
    rows.filter(|row: (char, u32)| row.1 == n)
}

/// Rows with the same count stand in `after` in the order in which they
/// stand in `before`.
pub open spec fn keeps_ties_in_order(before: Seq<(char, u32)>, after: Seq<(char, u32)>) -> bool {
    forall|n: u32| #[trigger] with_count(after, n) == with_count(before, n)
}

/// The sum of the counts of all rows.
pub open spec fn count_sum(rows: Seq<(char, u32)>) -> nat
    decreases rows.len(),
{
    if rows.len() == 0 {
        0
    } else {
        count_sum(rows.drop_last()) + rows.last().1 as nat
    }
}

/// What one more `c` does to the part of a bag that belongs to `kind`.
pub proof fn lemma_insert_of_kind(bag: Multiset<char>, c: char, kind: CharKind)
    ensures
        of_kind(bag.insert(c), kind) == if classify(c) == kind {
            of_kind(bag, kind).insert(c)
        } else {
            of_kind(bag, kind)
        },
{
    if classify(c) == kind {
        assert(of_kind(bag.insert(c), kind) =~= of_kind(bag, kind).insert(c));
    } else {
        assert(of_kind(bag.insert(c), kind) =~= of_kind(bag, kind));
    }
}

/// The part of two bags together that belongs to `kind` is made of their parts.
pub proof fn lemma_add_of_kind(bag: Multiset<char>, more: Multiset<char>, kind: CharKind)
    ensures
        of_kind(bag.add(more), kind) == of_kind(bag, kind).add(of_kind(more, kind)),
        total(bag.add(more), kind) == total(bag, kind) + total(more, kind),
{
    assert(of_kind(bag.add(more), kind) =~= of_kind(bag, kind).add(of_kind(more, kind)));
}

/// The first `n` characters of a text hold no more characters of a kind than the whole text.
pub proof fn lemma_total_prefix(text: Seq<char>, n: int, kind: CharKind)
    requires
        0 <= n <= text.len(),
    ensures
        total(text.take(n).to_multiset(), kind) <= total(text.to_multiset(), kind),
{
    lemma_multiset_commutative(text.take(n), text.skip(n));
    assert(text.take(n) + text.skip(n) =~= text);
    lemma_add_of_kind(text.take(n).to_multiset(), text.skip(n).to_multiset(), kind);
}

/// One more character of a text adds itself to the bag of the characters before it.
pub proof fn lemma_take_next(text: Seq<char>, n: int)
    requires
        0 <= n < text.len(),
    ensures
        text.take(n + 1).to_multiset() == text.take(n).to_multiset().insert(text[n]),
{
    to_multiset_build(text.take(n), text[n]);
    assert(text.take(n + 1) =~= text.take(n).push(text[n]));
}

/// One more row joins the rows of its own count, at their end.
pub proof fn lemma_with_count_push(rows: Seq<(char, u32)>, row: (char, u32), n: u32)
    ensures
        with_count(rows.push(row), n) == if row.1 == n {
            with_count(rows, n).push(row)
        } else {
            with_count(rows, n)
        },
{
    reveal(Seq::filter);
    assert(rows.push(row).drop_last() =~= rows);
}

/// The rows of one count in two runs of rows, one after the other, are those
/// of the first run followed by those of the second.
pub proof fn lemma_with_count_add(left: Seq<(char, u32)>, right: Seq<(char, u32)>, n: u32)
    ensures
        with_count(left + right, n) == with_count(left, n) + with_count(right, n),
    decreases right.len(),
{
    if right.len() == 0 {
        reveal(Seq::filter);
        assert(left + right =~= left);
        assert(with_count(left, n) + with_count(right, n) =~= with_count(left, n));
    } else {
        let row = right.last();
        lemma_with_count_add(left, right.drop_last(), n);
        lemma_with_count_push(left + right.drop_last(), row, n);
        lemma_with_count_push(right.drop_last(), row, n);
        assert((left + right.drop_last()).push(row) =~= left + right);
        assert(right.drop_last().push(row) =~= right);
        if row.1 == n {
            assert((with_count(left, n) + with_count(right.drop_last(), n)).push(row)
                =~= with_count(left, n) + with_count(right.drop_last(), n).push(row));
        }
    }
}

/// Where no row has the count `n`, the rows of that count are none.
pub proof fn lemma_with_count_none(rows: Seq<(char, u32)>, n: u32)
    requires
        forall|k: int| 0 <= k < rows.len() ==> rows[k].1 != n,
    ensures
        with_count(rows, n) == Seq::<(char, u32)>::empty(),
    decreases rows.len(),
{
    if rows.len() == 0 {
        reveal(Seq::filter);
        assert(with_count(rows, n) =~= Seq::<(char, u32)>::empty());
    } else {
        lemma_with_count_none(rows.drop_last(), n);
        lemma_with_count_push(rows.drop_last(), rows.last(), n);
        assert(rows.drop_last().push(rows.last()) =~= rows);
    }
}

/// The bag without any copy of `c`.
pub open spec fn without(bag: Multiset<char>, c: char) -> Multiset<char> {
    bag.filter(|x: char| x != c)
}

/// A bag in which nothing but `c` occurs is as large as the count of `c`.
proof fn lemma_len_of_copies(bag: Multiset<char>, c: char)
    requires
        forall|x: char| x != c ==> bag.count(x) == 0,
    ensures
        bag.len() == bag.count(c),
    decreases bag.count(c),
{
    if bag.count(c) == 0 {
        assert(bag =~= Multiset::empty());
    } else {
        let rest = bag.remove(c);
        assert(bag =~= rest.insert(c));
        lemma_len_of_copies(rest, c);
    }
}

/// Taking every copy of `c` out of a bag makes it smaller by the count of `c`.
proof fn lemma_len_without(bag: Multiset<char>, c: char)
    ensures
        bag.len() == without(bag, c).len() + bag.count(c),
{
    let others = without(bag, c);
    let copies = bag.filter(|x: char| x == c);
    assert(bag =~= others.add(copies));
    lemma_len_of_copies(copies, c);
}

/// Without its last row, a table is a table of the bag without that row's character.
proof fn lemma_table_drop_last(rows: Seq<(char, u32)>, bag: Multiset<char>)
    requires
        is_table_of(rows, bag),
        rows.len() > 0,
    ensures
        is_table_of(rows.drop_last(), without(bag, rows.last().0)),
{
    let c = rows.last().0;
    let rest = rows.drop_last();
    let others = without(bag, c);
    assert forall|i: int| 0 <= i < rest.len() implies (#[trigger] rest[i]).1 > 0 && others.count(
        rest[i].0,
    ) == rest[i].1 by {
        assert(rest[i] == rows[i]);
        assert(rows[i].0 != rows[rows.len() - 1].0);
    }
    assert forall|x: char| #[trigger] others.count(x) > 0 implies exists|i: int|
        0 <= i < rest.len() && (#[trigger] rest[i]).0 == x by {
        assert(bag.count(x) > 0);
        let i = choose|i: int| 0 <= i < rows.len() && (#[trigger] rows[i]).0 == x;
        assert(rest[i] == rows[i]);
    }
}

/// The counts of a frequency table add up to the size of the bag.
pub proof fn lemma_table_sum(rows: Seq<(char, u32)>, bag: Multiset<char>)
    requires
        is_table_of(rows, bag),
    ensures
        count_sum(rows) == bag.len(),
    decreases rows.len(),
{
    if rows.len() == 0 {
        assert forall|c: char| bag.count(c) == 0 by {
            if bag.count(c) > 0 {
                let i = choose|i: int| 0 <= i < rows.len() && (#[trigger] rows[i]).0 == c;
            }
        }
        assert(bag =~= Multiset::empty());
    } else {
        let c = rows.last().0;
        lemma_table_drop_last(rows, bag);
        lemma_table_sum(rows.drop_last(), without(bag, c));
        lemma_len_without(bag, c);
    }
}

/// A frequency table has one row for each different character of the bag.
pub proof fn lemma_table_len(rows: Seq<(char, u32)>, bag: Multiset<char>)
    requires
        is_table_of(rows, bag),
    ensures
        rows.len() == bag.dom().len(),
    decreases rows.len(),
{
    if rows.len() == 0 {
        assert forall|c: char| bag.count(c) == 0 by {
            if bag.count(c) > 0 {
                let i = choose|i: int| 0 <= i < rows.len() && (#[trigger] rows[i]).0 == c;
            }
        }
        assert(bag.dom() =~= Set::empty());
    } else {
        let c = rows.last().0;
        let others = without(bag, c);
        lemma_table_drop_last(rows, bag);
        lemma_table_len(rows.drop_last(), others);
        assert(bag.count(rows[rows.len() - 1].0) > 0);
        assert(others.dom() =~= bag.dom().remove(c));
    }
}

/// The sum of the counts of the first rows is at most that of all rows.
pub proof fn lemma_count_sum_prefix(rows: Seq<(char, u32)>, n: int)
    requires
        0 <= n <= rows.len(),
    ensures
        count_sum(rows.take(n)) <= count_sum(rows),
    decreases rows.len() - n,
{
    if n == rows.len() {
        assert(rows.take(n) =~= rows);
    } else {
        lemma_count_sum_prefix(rows, n + 1);
        assert(rows.take(n + 1).drop_last() =~= rows.take(n));
    }
}

/// A table of a bag stays one however its rows are rearranged.
pub proof fn lemma_table_rearranged(
    rows: Seq<(char, u32)>,
    other: Seq<(char, u32)>,
    bag: Multiset<char>,
)
    requires
        is_table_of(rows, bag),
        rows.to_multiset() == other.to_multiset(),
    ensures
        is_table_of(other, bag),
{
    rows.to_multiset_ensures();
    other.to_multiset_ensures();
    assert(rows.no_duplicates());
    rows.lemma_multiset_has_no_duplicates();
    assert forall|i: int, j: int| 0 <= i < j < other.len() implies (#[trigger] other[i]).0 != (
    #[trigger] other[j]).0 by {
        assert(other.contains(other[i]));
        assert(other.contains(other[j]));
        assert(rows.to_multiset().count(other[i]) > 0);
        assert(rows.to_multiset().count(other[j]) > 0);
        assert(rows.contains(other[i]));
        assert(rows.contains(other[j]));
        let a = choose|a: int| 0 <= a < rows.len() && rows[a] == other[i];
        let b = choose|b: int| 0 <= b < rows.len() && rows[b] == other[j];
        if other[i].0 == other[j].0 {
            assert(a == b);
            assert(other.to_multiset().contains(other[i]));
            assert(other.to_multiset().count(other[i]) == 1);
            other.lemma_multiset_has_no_duplicates_conv();
        }
    }
    assert forall|i: int| 0 <= i < other.len() implies (#[trigger] other[i]).1 > 0 && bag.count(
        other[i].0,
    ) == other[i].1 by {
        assert(other.contains(other[i]));
        assert(rows.to_multiset().count(other[i]) > 0);
        assert(rows.contains(other[i]));
        let a = choose|a: int| 0 <= a < rows.len() && rows[a] == other[i];
        assert(bag.count(rows[a].0) == rows[a].1);
    }
    assert forall|c: char| #[trigger] bag.count(c) > 0 implies exists|i: int|
        0 <= i < other.len() && (#[trigger] other[i]).0 == c by {
        let a = choose|a: int| 0 <= a < rows.len() && (#[trigger] rows[a]).0 == c;
        assert(rows.contains(rows[a]));
        assert(other.to_multiset().count(rows[a]) > 0);
        assert(other.contains(rows[a]));
        let i = choose|i: int| 0 <= i < other.len() && other[i] == rows[a];
        assert(other[i].0 == c);
    }
}

/// The code point of a character is below 0x110000.
pub proof fn lemma_code_range(c: char)
    ensures
        0 <= (c as int) && (c as int) < 0x110000,
{
}

/// No set of characters has more members than there are code points.
pub proof fn lemma_char_set_len(s: Set<char>)
    requires
        s.finite(),
    ensures
        s.len() <= 0x110000,
{
    let code = |c: char| c as int;
    let codes = s.map(code);
    assert(vstd::relations::injective_on(code, s));
    lemma_map_size(s, codes, code);
    lemma_int_range(0, 0x110000);
    assert forall|i: int| codes.contains(i) implies set_int_range(0, 0x110000).contains(i) by {
        let c = choose|c: char| s.contains(c) && i == code(c);
        lemma_code_range(c);
    }
    lemma_len_subset(codes, set_int_range(0, 0x110000));
}

} // verus!
