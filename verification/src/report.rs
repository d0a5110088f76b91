//! Count reports: one row for each kind that is not left out, and their sum.

use crate::kind::CharKind;
use vstd::prelude::*;

verus! {

/// One count for each of the four kinds.
#[derive(Debug, Clone, Copy)]
pub struct KindCounts {
    pub hiragana: u32,
    pub katakana: u32,
    pub kanji: u32,
    pub other: u32,
}

impl KindCounts {
    /// The count that stands for `kind`.
    pub open spec fn count(self, kind: CharKind) -> u32 {
        match kind {
            CharKind::Hiragana => self.hiragana,
            CharKind::Katakana => self.katakana,
            CharKind::Kanji => self.kanji,
            CharKind::Other => self.other,
        }
    }

    /// The count that stands for `kind`.
    pub fn get(&self, kind: CharKind) -> (count: u32)
        ensures
            count == self.count(kind),
    {
        match kind {
            CharKind::Hiragana => self.hiragana,
            CharKind::Katakana => self.katakana,
            CharKind::Kanji => self.kanji,
            CharKind::Other => self.other,
        }
    }
}

/// The rows of a count report and the sum of their counts.
#[derive(Debug)]
pub struct CountReport {
    pub rows: Vec<(CharKind, u32)>,
    pub total: u64,
}

/// The four kinds in the order of a report.
pub open spec fn all_kinds() -> Seq<CharKind> {
    seq![CharKind::Hiragana, CharKind::Katakana, CharKind::Kanji, CharKind::Other]
}

/// The rows for `kinds`, in their order: each kind that `exclude` does not
/// name, with its count.
pub open spec fn rows_for(kinds: Seq<CharKind>, counts: KindCounts, exclude: Seq<CharKind>) -> Seq<
    (CharKind, u32),
>
    decreases kinds.len(),
{
    if kinds.len() == 0 {
        Seq::empty()
    } else if exclude.contains(kinds.last()) {
        rows_for(kinds.drop_last(), counts, exclude)
    } else {
        rows_for(kinds.drop_last(), counts, exclude).push((kinds.last(), counts.count(kinds.last())))
    }
}

/// The sum of the counts of `rows`.
pub open spec fn row_sum(rows: Seq<(CharKind, u32)>) -> nat
    decreases rows.len(),
{
    if rows.len() == 0 {
        0
    } else {
        row_sum(rows.drop_last()) + rows.last().1 as nat
    }
}

/// The rows of the report on `counts` that leaves out the kinds of `exclude`.
pub open spec fn report_rows(counts: KindCounts, exclude: Seq<CharKind>) -> Seq<(CharKind, u32)> {
    rows_for(all_kinds(), counts, exclude)
}

/// `rows` without the rows of `kind`.
pub open spec fn without_kind(rows: Seq<(CharKind, u32)>, kind: CharKind) -> Seq<(CharKind, u32)>
    decreases rows.len(),
{
    if rows.len() == 0 {
        rows
    } else if rows.last().0 == kind {
        without_kind(rows.drop_last(), kind)
    } else {
        without_kind(rows.drop_last(), kind).push(rows.last())
    }
}

/// A kind that is left out has no row, and its count has no part in the
/// report: the report is the same whatever that count is.
pub proof fn lemma_excluded_kind(
    counts: KindCounts,
    other: KindCounts,
    exclude: Seq<CharKind>,
    kind: CharKind,
)
    requires
        exclude.contains(kind),
        forall|k: CharKind| k != kind ==> #[trigger] other.count(k) == counts.count(k),
    ensures
        forall|i: int|
            0 <= i < report_rows(counts, exclude).len() ==> (#[trigger] report_rows(
                counts,
                exclude,
            )[i]).0 != kind,
        report_rows(other, exclude) == report_rows(counts, exclude),
{
    reveal_with_fuel(rows_for, 5);
    assert(other.count(CharKind::Hiragana) == counts.count(CharKind::Hiragana) || kind
        == CharKind::Hiragana);
    assert(other.count(CharKind::Katakana) == counts.count(CharKind::Katakana) || kind
        == CharKind::Katakana);
    assert(other.count(CharKind::Kanji) == counts.count(CharKind::Kanji) || kind
        == CharKind::Kanji);
    assert(other.count(CharKind::Other) == counts.count(CharKind::Other) || kind
        == CharKind::Other);
    assert(report_rows(other, exclude) =~= report_rows(counts, exclude));
}

/// Leaving out one more kind takes its row out of the report and its count
/// out of the sum, and changes nothing else.
pub proof fn lemma_exclude_one_more(counts: KindCounts, exclude: Seq<CharKind>, kind: CharKind)
    requires
        !exclude.contains(kind),
    ensures
        report_rows(counts, exclude.push(kind)) == without_kind(
            report_rows(counts, exclude),
            kind,
        ),
        row_sum(report_rows(counts, exclude.push(kind))) + counts.count(kind) == row_sum(
            report_rows(counts, exclude),
        ),
{
    let more = exclude.push(kind);
    assert forall|k: CharKind| more.contains(k) == (exclude.contains(k) || k == kind) by {
        if exclude.contains(k) {
            let i = choose|i: int| 0 <= i < exclude.len() && exclude[i] == k;
            assert(more[i] == k);
        }
        if k == kind {
            assert(more[exclude.len() as int] == k);
        }
    }
    lemma_rows_exclude_one_more(all_kinds(), counts, exclude, kind);
}

/// `kinds` names no kind twice.
spec fn distinct(kinds: Seq<CharKind>) -> bool {
    forall|i: int, j: int| 0 <= i < j < kinds.len() ==> kinds[i] != kinds[j]
}

/// What leaving out one more kind does to the rows for `kinds`.
proof fn lemma_rows_exclude_one_more(
    kinds: Seq<CharKind>,
    counts: KindCounts,
    exclude: Seq<CharKind>,
    kind: CharKind,
)
    requires
        !exclude.contains(kind),
        forall|k: CharKind|
            exclude.push(kind).contains(k) == (exclude.contains(k) || k == kind),
        distinct(kinds),
    ensures
        rows_for(kinds, counts, exclude.push(kind)) == without_kind(
            rows_for(kinds, counts, exclude),
            kind,
        ),
        row_sum(rows_for(kinds, counts, exclude.push(kind))) + (if kinds.contains(kind) {
            counts.count(kind) as nat
        } else {
            0
        }) == row_sum(rows_for(kinds, counts, exclude)),
    decreases kinds.len(),
{
    if kinds.len() > 0 {
        let rest = kinds.drop_last();
        let last = kinds.last();
        let before = rows_for(rest, counts, exclude);
        lemma_rows_exclude_one_more(rest, counts, exclude, kind);
        if !exclude.contains(last) {
            assert(before.push((last, counts.count(last))).drop_last() =~= before);
        }
        if last != kind && !exclude.contains(last) {
            let fewer = rows_for(rest, counts, exclude.push(kind));
            assert(fewer.push((last, counts.count(last))).drop_last() =~= fewer);
        }
        if kinds.contains(kind) {
            let i = choose|i: int| 0 <= i < kinds.len() && kinds[i] == kind;
            if last == kind {
                if rest.contains(kind) {
                    let j = choose|j: int| 0 <= j < rest.len() && rest[j] == kind;
                    assert(kinds[j] == kind);
                }
            } else {
                assert(rest[i] == kind);
            }
        } else if rest.contains(kind) {
            let j = choose|j: int| 0 <= j < rest.len() && rest[j] == kind;
            assert(kinds[j] == kind);
        }
    }
}

/// Whether `kind` is one of `kinds`.
pub fn is_among(kinds: &[CharKind], kind: CharKind) -> (found: bool)
    ensures
        found == kinds@.contains(kind),
{
    for i in 0..kinds.len()
        invariant
            forall|j: int| 0 <= j < i ==> kinds@[j] != kind,
    {
        if kinds[i] == kind {
            return true;
        }
    }
    false
}

/// Reports `counts` without the kinds of `exclude`: the kinds that are left,
/// in the order of [`CharKind::ALL`], each with its count, and the sum of
/// these counts.
pub fn count_report(counts: &KindCounts, exclude: &[CharKind]) -> (report: CountReport)
    ensures
        report.rows@ == report_rows(*counts, exclude@),
        report.total == row_sum(report.rows@),
{
    let mut rows: Vec<(CharKind, u32)> = Vec::new();
    let mut total: u64 = 0;
    let kinds = CharKind::ALL;
    assert(kinds@ =~= all_kinds());
    for i in 0..4usize
        invariant
            kinds@ == all_kinds(),
            rows@ == rows_for(all_kinds().take(i as int), *counts, exclude@),
            total == row_sum(rows@),
            total <= i * u32::MAX,
    {
        let kind = kinds[i];
        assert(all_kinds().take(i + 1).drop_last() =~= all_kinds().take(i as int));
        if !is_among(exclude, kind) {
            let count = counts.get(kind);
            assert(rows@.push((kind, count)).drop_last() =~= rows@);
            rows.push((kind, count));
            total = total + count as u64;
        }
    }
    assert(all_kinds().take(4) =~= all_kinds());
    CountReport { rows, total }
}

} // verus!
