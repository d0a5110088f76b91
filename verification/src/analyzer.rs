//! The analyzer: one frequency table for each kind of character.

use crate::bag::{
    count_sum, is_table_of, lemma_add_of_kind, lemma_char_set_len, lemma_code_range,
    lemma_count_sum_prefix, lemma_insert_of_kind, lemma_table_len, lemma_table_rearranged,
    lemma_table_sum, lemma_take_next, lemma_total_prefix, of_kind, sorted_by_count, total,
    unique,
};
use crate::kind::{classify, CharKind};
use crate::report::KindCounts;
use crate::sort::sort_by_count;
use std::collections::HashMap;
use vstd::multiset::Multiset;
use vstd::prelude::*;
use vstd::set_lib::lemma_map_size;
use vstd::std_specs::iter::IteratorSpec;

verus! {

/// Counts how often each character occurs, kind by kind.
///
/// An analyzer stands for the bag of all characters it has been given: that
/// bag is its view, and every query answers a question about it. The counts
/// are `u32`s, so an analyzer holds at most `u32::MAX` characters of each
/// kind; [`Analyzer::has_room_for`] tells whether a text can still be taken.
pub struct Analyzer {
    hiragana: HashMap<u32, (char, u32)>,
    katakana: HashMap<u32, (char, u32)>,
    kanji: HashMap<u32, (char, u32)>,
    other: HashMap<u32, (char, u32)>,
    seen: Ghost<Multiset<char>>,
}

/// `table` holds, under the code point of each character of `part`, that
/// character and its count, and nothing else; and `part` is small enough for
/// its size to be a `u32`.
spec fn records(table: Map<u32, (char, u32)>, part: Multiset<char>) -> bool {
    &&& forall|key: u32| #[trigger]
        table.contains_key(key) ==> table[key].0 as int == key && table[key].1 > 0 && part.count(
            table[key].0,
        ) == table[key].1
    &&& forall|c: char| #[trigger] part.count(c) > 0 ==> table.contains_key(c as u32)
    &&& part.len() <= u32::MAX
}

/// A table has one entry for each different character of its part of the bag.
proof fn lemma_records_unique(table: Map<u32, (char, u32)>, part: Multiset<char>)
    requires
        records(table, part),
        table.dom().finite(),
    ensures
        table.dom().len() == part.dom().len(),
{
    let character = |key: u32| table[key].0;
    assert(vstd::relations::injective_on(character, table.dom()));
    assert forall|c: char| part.dom().contains(c) implies table.dom().map(character).contains(
        c,
    ) by {
        lemma_code_range(c);
        assert(part.count(c) > 0);
        assert(table.dom().contains(c as u32));
        assert(character(c as u32) == c);
    }
    assert(table.dom().map(character) =~= part.dom());
    lemma_map_size(table.dom(), part.dom(), character);
}

/// The rows that the entries of a table stand for, in the order of the entries.
spec fn rows_of(entries: Seq<(&u32, &(char, u32))>) -> Seq<(char, u32)> {
    entries.map_values(|entry: (&u32, &(char, u32))| *entry.1)
}

/// The entries of a table, each once and in any order, are a frequency table
/// of the table's part of the bag.
proof fn lemma_entries_are_table(
    table: Map<u32, (char, u32)>,
    entries: Seq<(&u32, &(char, u32))>,
    part: Multiset<char>,
)
    requires
        records(table, part),
        entries.no_duplicates(),
        forall|i: int|
            0 <= i < entries.len() ==> table.contains_key(*(#[trigger] entries[i]).0)
                && table[*entries[i].0] == *entries[i].1,
        forall|key: u32| #[trigger]
            table.contains_key(key) ==> entries.contains((&key, &table[key])),
    ensures
        is_table_of(rows_of(entries), part),
{
    let rows = rows_of(entries);
    assert forall|i: int, j: int| 0 <= i < j < rows.len() implies (#[trigger] rows[i]).0 != (
    #[trigger] rows[j]).0 by {
        if rows[i].0 == rows[j].0 {
            assert(*entries[i].0 as int == entries[i].1.0 as int);
            assert(*entries[j].0 as int == entries[j].1.0 as int);
            assert(entries[i] == entries[j]);
        }
    }
    assert forall|i: int| 0 <= i < rows.len() implies (#[trigger] rows[i]).1 > 0 && part.count(
        rows[i].0,
    ) == rows[i].1 by {
        assert(table.contains_key(*entries[i].0));
    }
    assert forall|c: char| #[trigger] part.count(c) > 0 implies exists|i: int|
        0 <= i < rows.len() && (#[trigger] rows[i]).0 == c by {
        lemma_code_range(c);
        let key = c as u32;
        assert(table.contains_key(key));
        let i = choose|i: int| 0 <= i < entries.len() && entries[i] == (&key, &table[key]);
        assert(rows[i].0 == c);
    }
}

/// Counts the characters of `text` by kind, as far as each count is a `u32`.
fn tally(text: &str) -> (found: Option<KindCounts>)
    ensures
        match found {
            Some(counts) => forall|kind: CharKind| #[trigger]
                counts.count(kind) == total(text@.to_multiset(), kind),
            None => exists|kind: CharKind| #[trigger] total(text@.to_multiset(), kind) > u32::MAX,
        },
{
    let mut counts = KindCounts { hiragana: 0, katakana: 0, kanji: 0, other: 0 };
    proof {
        text@.take(0).to_multiset_ensures();
        assert forall|kind: CharKind| #[trigger]
            total(text@.take(0).to_multiset(), kind) == 0 by {
            assert(of_kind(text@.take(0).to_multiset(), kind) =~= Multiset::empty());
        }
    }
    for c in it: text.chars()
        invariant
            it.seq() == text@,
            counts.hiragana == total(text@.take(it.index()).to_multiset(), CharKind::Hiragana),
            counts.katakana == total(text@.take(it.index()).to_multiset(), CharKind::Katakana),
            counts.kanji == total(text@.take(it.index()).to_multiset(), CharKind::Kanji),
            counts.other == total(text@.take(it.index()).to_multiset(), CharKind::Other),
    {
        let kind = CharKind::from_char(c);
        proof {
            lemma_take_next(text@, it.index());
            lemma_insert_of_kind(text@.take(it.index()).to_multiset(), c, CharKind::Hiragana);
            lemma_insert_of_kind(text@.take(it.index()).to_multiset(), c, CharKind::Katakana);
            lemma_insert_of_kind(text@.take(it.index()).to_multiset(), c, CharKind::Kanji);
            lemma_insert_of_kind(text@.take(it.index()).to_multiset(), c, CharKind::Other);
            lemma_total_prefix(text@, it.index() + 1, kind);
        }
        if counts.get(kind) == u32::MAX {
            assert(total(text@.to_multiset(), kind) > u32::MAX);
            return None;
        }
        match kind {
            CharKind::Hiragana => counts.hiragana = counts.hiragana + 1,
            CharKind::Katakana => counts.katakana = counts.katakana + 1,
            CharKind::Kanji => counts.kanji = counts.kanji + 1,
            CharKind::Other => counts.other = counts.other + 1,
        }
    }
    assert(text@.take(text@.len() as int) =~= text@);
    Some(counts)
}

/// Counts one more `c` in `table`.
fn bump(table: &mut HashMap<u32, (char, u32)>, c: char, Ghost(part): Ghost<Multiset<char>>)
    requires
        records(old(table)@, part),
        part.len() < u32::MAX,
    ensures
        records(final(table)@, part.insert(c)),
{
    let slot = table.entry(c as u32).or_insert((c, 0));
    slot.1 = slot.1 + 1;
    proof {
        let grown = part.insert(c);
        assert forall|key: u32| #[trigger] table@.contains_key(key) implies table@[key].0 as int
            == key && table@[key].1 > 0 && grown.count(table@[key].0) == table@[key].1 by {
            if key != c as u32 {
                assert(old(table)@.contains_key(key));
            }
        }
        assert forall|x: char| #[trigger] grown.count(x) > 0 implies table@.contains_key(
            x as u32,
        ) by {
            if x != c {
                assert(part.count(x) > 0);
            }
        }
    }
}

impl View for Analyzer {
    type V = Multiset<char>;

    /// The bag of all characters given to the analyzer so far.
    closed spec fn view(&self) -> Multiset<char> {
        self.seen@
    }
}

impl Analyzer {
    /// The tables and the bag agree.
    pub closed spec fn wf(&self) -> bool {
        &&& records(self.hiragana@, of_kind(self.seen@, CharKind::Hiragana))
        &&& records(self.katakana@, of_kind(self.seen@, CharKind::Katakana))
        &&& records(self.kanji@, of_kind(self.seen@, CharKind::Kanji))
        &&& records(self.other@, of_kind(self.seen@, CharKind::Other))
    }

    /// The table that is kept for `kind`.
    spec fn records_of(&self, kind: CharKind) -> Map<u32, (char, u32)> {
        match kind {
            CharKind::Hiragana => self.hiragana@,
            CharKind::Katakana => self.katakana@,
            CharKind::Kanji => self.kanji@,
            CharKind::Other => self.other@,
        }
    }

    fn table(&self, kind: CharKind) -> (table: &HashMap<u32, (char, u32)>)
        requires
            self.wf(),
        ensures
            table@ == self.records_of(kind),
            records(table@, of_kind(self@, kind)),
    {
        match kind {
            CharKind::Hiragana => &self.hiragana,
            CharKind::Katakana => &self.katakana,
            CharKind::Kanji => &self.kanji,
            CharKind::Other => &self.other,
        }
    }

    /// A well-formed analyzer holds at most `u32::MAX` characters of each kind.
    pub proof fn lemma_totals_fit(&self, kind: CharKind)
        requires
            self.wf(),
        ensures
            total(self@, kind) <= u32::MAX,
    {
    }

    /// Whether the characters of `text` can be counted as well: no table
    /// would have to count more than `u32::MAX` characters.
    pub open spec fn has_room(&self, text: Seq<char>) -> bool {
        forall|kind: CharKind| #[trigger]
            total(self@, kind) + total(text.to_multiset(), kind) <= u32::MAX
    }

    /// Counts one more occurrence of `c`, for which there must be room among
    /// the characters of its kind.
    pub fn parse_char(&mut self, c: char)
        requires
            old(self).wf(),
            total(old(self)@, classify(c)) < u32::MAX,
        ensures
            final(self).wf(),
            final(self)@ == old(self)@.insert(c),
    {
        let ghost before = self.seen@;
        proof {
            lemma_insert_of_kind(before, c, CharKind::Hiragana);
            lemma_insert_of_kind(before, c, CharKind::Katakana);
            lemma_insert_of_kind(before, c, CharKind::Kanji);
            lemma_insert_of_kind(before, c, CharKind::Other);
        }
        match CharKind::from_char(c) {
            CharKind::Hiragana => bump(
                &mut self.hiragana,
                c,
                Ghost(of_kind(before, CharKind::Hiragana)),
            ),
            CharKind::Katakana => bump(
                &mut self.katakana,
                c,
                Ghost(of_kind(before, CharKind::Katakana)),
            ),
            CharKind::Kanji => bump(&mut self.kanji, c, Ghost(of_kind(before, CharKind::Kanji))),
            CharKind::Other => bump(&mut self.other, c, Ghost(of_kind(before, CharKind::Other))),
        }
        self.seen = Ghost(before.insert(c));
    }

    /// Counts every character of `text`, for which there must be room.
    pub fn parse_str(&mut self, text: &str)
        requires
            old(self).wf(),
            old(self).has_room(text@),
        ensures
            final(self).wf(),
            final(self)@ == old(self)@.add(text@.to_multiset()),
    {
        let ghost start = self@;
        assert(start.add(text@.take(0).to_multiset()) =~= start) by {
            text@.take(0).to_multiset_ensures();
        }
        for c in it: text.chars()
            invariant
                it.seq() == text@,
                self.wf(),
                self@ == start.add(text@.take(it.index()).to_multiset()),
                forall|kind: CharKind| #[trigger]
                    total(start, kind) + total(text@.to_multiset(), kind) <= u32::MAX,
        {
            proof {
                let kind = classify(c);
                let n = it.index();
                lemma_take_next(text@, n);
                lemma_add_of_kind(start, text@.take(n).to_multiset(), kind);
                lemma_insert_of_kind(text@.take(n).to_multiset(), c, kind);
                lemma_total_prefix(text@, n + 1, kind);
                assert(total(start, kind) + total(text@.to_multiset(), kind) <= u32::MAX);
                assert(start.add(text@.take(n).to_multiset()).insert(c) =~= start.add(
                    text@.take(n + 1).to_multiset(),
                ));
            }
            self.parse_char(c);
        }
        assert(text@.take(text@.len() as int) =~= text@);
    }

    /// The number of different characters of `kind` seen so far.
    pub fn get_unique_count(&self, kind: CharKind) -> (count: u32)
        requires
            self.wf(),
        ensures
            count == unique(self@, kind),
    {
        let table = self.table(kind);
        proof {
            lemma_records_unique(table@, of_kind(self@, kind));
            lemma_char_set_len(of_kind(self@, kind).dom());
        }
        table.len() as u32
    }

    /// The number of characters of `kind` seen so far, repeats included.
    pub fn get_total_count(&self, kind: CharKind) -> (count: u32)
        requires
            self.wf(),
        ensures
            count == total(self@, kind),
    {
        let entries = self.table(kind).iter();
        let ghost rows = rows_of(entries.remaining());
        proof {
            lemma_entries_are_table(
                self.records_of(kind),
                entries.remaining(),
                of_kind(self@, kind),
            );
            lemma_table_sum(rows, of_kind(self@, kind));
        }
        let mut count: u32 = 0;
        for entry in it: entries
            invariant
                rows == rows_of(it.seq()),
                count_sum(rows) <= u32::MAX,
                count == count_sum(rows.take(it.index())),
        {
            proof {
                lemma_count_sum_prefix(rows, it.index() + 1);
                assert(rows.take(it.index() + 1).drop_last() =~= rows.take(it.index()));
            }
            count = count + entry.1.1;
        }
        assert(rows.take(rows.len() as int) =~= rows);
        count
    }

    /// The characters of `kind` seen so far, each with the number of its
    /// occurrences, in order of these numbers, smallest first.
    ///
    /// Characters that occur equally often come in no particular order.
    pub fn char_freqs(&self, kind: CharKind) -> (freqs: Vec<(char, u32)>)
        requires
            self.wf(),
        ensures
            is_table_of(freqs@, of_kind(self@, kind)),
            sorted_by_count(freqs@),
            count_sum(freqs@) == total(self@, kind),
            freqs@.len() == unique(self@, kind),
    {
        let entries = self.table(kind).iter();
        let ghost rows = rows_of(entries.remaining());
        proof {
            lemma_entries_are_table(
                self.records_of(kind),
                entries.remaining(),
                of_kind(self@, kind),
            );
        }
        let mut freqs: Vec<(char, u32)> = Vec::new();
        for entry in it: entries
            invariant
                rows == rows_of(it.seq()),
                freqs@ == rows.take(it.index()),
        {
            freqs.push(*entry.1);
            assert(rows.take(it.index() + 1) =~= rows.take(it.index()).push(*entry.1));
        }
        assert(rows.take(rows.len() as int) =~= rows);
        sort_by_count(&mut freqs);
        proof {
            lemma_table_rearranged(rows, freqs@, of_kind(self@, kind));
            lemma_table_sum(freqs@, of_kind(self@, kind));
            lemma_table_len(freqs@, of_kind(self@, kind));
        }
        freqs
    }

    /// The number of characters of each kind seen so far, repeats included.
    pub fn total_counts(&self) -> (counts: KindCounts)
        requires
            self.wf(),
        ensures
            forall|kind: CharKind| #[trigger] counts.count(kind) == total(self@, kind),
    {
        KindCounts {
            hiragana: self.get_total_count(CharKind::Hiragana),
            katakana: self.get_total_count(CharKind::Katakana),
            kanji: self.get_total_count(CharKind::Kanji),
            other: self.get_total_count(CharKind::Other),
        }
    }

    /// The number of different characters of each kind seen so far.
    pub fn unique_counts(&self) -> (counts: KindCounts)
        requires
            self.wf(),
        ensures
            forall|kind: CharKind| #[trigger] counts.count(kind) == unique(self@, kind),
    {
        KindCounts {
            hiragana: self.get_unique_count(CharKind::Hiragana),
            katakana: self.get_unique_count(CharKind::Katakana),
            kanji: self.get_unique_count(CharKind::Kanji),
            other: self.get_unique_count(CharKind::Other),
        }
    }

    /// Whether the analyzer can count the characters of `text` as well.
    pub fn has_room_for(&self, text: &str) -> (fits: bool)
        requires
            self.wf(),
        ensures
            fits == self.has_room(text@),
    {
        let seen = self.total_counts();
        let ghost added = text@.to_multiset();
        match tally(text) {
            None => {
                proof {
                    let kind = choose|kind: CharKind| #[trigger] total(added, kind) > u32::MAX;
                    assert(total(self@, kind) + total(added, kind) > u32::MAX);
                }
                false
            },
            Some(more) => {
                proof {
                    assert(seen.count(CharKind::Hiragana) == total(self@, CharKind::Hiragana));
                    assert(seen.count(CharKind::Katakana) == total(self@, CharKind::Katakana));
                    assert(seen.count(CharKind::Kanji) == total(self@, CharKind::Kanji));
                    assert(seen.count(CharKind::Other) == total(self@, CharKind::Other));
                    assert(more.count(CharKind::Hiragana) == total(added, CharKind::Hiragana));
                    assert(more.count(CharKind::Katakana) == total(added, CharKind::Katakana));
                    assert(more.count(CharKind::Kanji) == total(added, CharKind::Kanji));
                    assert(more.count(CharKind::Other) == total(added, CharKind::Other));
                }
                seen.hiragana <= u32::MAX - more.hiragana && seen.katakana <= u32::MAX
                    - more.katakana && seen.kanji <= u32::MAX - more.kanji && seen.other
                    <= u32::MAX - more.other
            },
        }
    }
}

impl Default for Analyzer {
    /// An analyzer that has seen nothing.
    fn default() -> (analyzer: Analyzer)
        ensures
            analyzer.wf(),
            analyzer@ == Multiset::<char>::empty(),
    {
        proof {
            let nothing = Multiset::<char>::empty();
            assert(of_kind(nothing, CharKind::Hiragana) =~= nothing);
            assert(of_kind(nothing, CharKind::Katakana) =~= nothing);
            assert(of_kind(nothing, CharKind::Kanji) =~= nothing);
            assert(of_kind(nothing, CharKind::Other) =~= nothing);
        }
        Analyzer {
            hiragana: HashMap::new(),
            katakana: HashMap::new(),
            kanji: HashMap::new(),
            other: HashMap::new(),
            seen: Ghost(Multiset::empty()),
        }
    }
}

} // verus!
