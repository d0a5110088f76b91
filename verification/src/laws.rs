//! Laws of counting: what holds of every bag and every text.

use crate::bag::{
    lemma_add_of_kind, lemma_insert_of_kind, lemma_take_next, lemma_total_prefix, of_kind, total,
    unique,
};
use crate::kind::{classify, CharKind};
use vstd::multiset::Multiset;
use vstd::prelude::*;

verus! {

/// The bag that results from putting the characters of `text` into `bag` one
/// at a time, from the first to the last.
pub open spec fn one_by_one(bag: Multiset<char>, text: Seq<char>) -> Multiset<char> {
    text.fold_left(bag, |sofar: Multiset<char>, c: char| sofar.insert(c))
}

/// `n` times the character `c`.
pub open spec fn repeated(c: char, n: nat) -> Seq<char> {
    Seq::new(n, |i: int| c)
}

/// Counting a text at once gives the same bag as counting its characters one
/// at a time, in order.
pub proof fn lemma_text_is_one_by_one(bag: Multiset<char>, text: Seq<char>)
    ensures
        one_by_one(bag, text) == bag.add(text.to_multiset()),
    decreases text.len(),
{
    if text.len() == 0 {
        text.to_multiset_ensures();
        assert(bag.add(text.to_multiset()) =~= bag);
    } else {
        let n = text.len() - 1;
        lemma_text_is_one_by_one(bag, text.drop_last());
        lemma_take_next(text, n);
        assert(text.take(n) =~= text.drop_last());
        assert(text.take(n + 1) =~= text);
        assert(bag.add(text.drop_last().to_multiset()).insert(text.last()) =~= bag.add(
            text.to_multiset(),
        ));
    }
}

/// Where there is room for a whole text, there is room for each of its
/// characters when its turn comes.
pub proof fn lemma_room_for_each(bag: Multiset<char>, text: Seq<char>, n: int)
    requires
        forall|kind: CharKind| #[trigger]
            total(bag, kind) + total(text.to_multiset(), kind) <= u32::MAX,
        0 <= n < text.len(),
    ensures
        total(one_by_one(bag, text.take(n)), classify(text[n])) < u32::MAX,
{
    let kind = classify(text[n]);
    lemma_text_is_one_by_one(bag, text.take(n));
    lemma_add_of_kind(bag, text.take(n).to_multiset(), kind);
    lemma_take_next(text, n);
    lemma_insert_of_kind(text.take(n).to_multiset(), text[n], kind);
    lemma_total_prefix(text, n + 1, kind);
    assert(total(bag, kind) + total(text.to_multiset(), kind) <= u32::MAX);
}

/// More of a character that a bag already holds leaves the number of
/// different characters as it is, and adds to the number of characters of
/// its kind just as many as were added.
pub proof fn lemma_repeats(bag: Multiset<char>, c: char, n: nat, kind: CharKind)
    requires
        bag.count(c) > 0,
    ensures
        unique(bag.add(repeated(c, n).to_multiset()), kind) == unique(bag, kind),
        total(bag.add(repeated(c, n).to_multiset()), kind) == if kind == classify(c) {
            total(bag, kind) + n
        } else {
            total(bag, kind)
        },
{
    let more = repeated(c, n).to_multiset();
    repeated(c, n).to_multiset_ensures();
    assert forall|x: char| x != c implies more.count(x) == 0 by {
        if more.count(x) > 0 {
            assert(repeated(c, n).contains(x));
        }
    }
    assert(of_kind(bag.add(more), kind).dom() =~= of_kind(bag, kind).dom());
    lemma_add_of_kind(bag, more, kind);
    if kind == classify(c) {
        assert(of_kind(more, kind) =~= more);
    } else {
        assert(of_kind(more, kind) =~= Multiset::empty());
    }
}

} // verus!
