//! A lookup table of texts, in the order in which they were written down.

use crate::text;
use vstd::prelude::*;

verus! {

/// Pairs of strings as pairs of texts.
pub open spec fn pair_views(entries: Seq<(String, String)>) -> Seq<(Seq<char>, Seq<char>)> {
    entries.map_values(|entry: (String, String)| (entry.0@, entry.1@))
}

/// The value of a key, of which the last counts.
pub open spec fn value_of(entries: Seq<(Seq<char>, Seq<char>)>, key: Seq<char>) -> Option<Seq<char>>
    decreases entries.len(),
{
    if entries.len() == 0 {
        None
    } else if entries.last().0 == key {
        Some(entries.last().1)
    } else {
        value_of(entries.drop_last(), key)
    }
}

/// A lookup table of texts.
#[derive(Debug)]
pub struct Table {
    entries: Vec<(String, String)>,
}

impl View for Table {
    /// The keys and values in the order in which they were written down.
    type V = Seq<(Seq<char>, Seq<char>)>;

    closed spec fn view(&self) -> Seq<(Seq<char>, Seq<char>)> {
        pair_views(self.entries@)
    }
}

impl Table {
    pub fn new(entries: Vec<(String, String)>) -> (table: Self)
        ensures
            table@ == pair_views(entries@),
    {
        Table { entries }
    }

    /// The value of a key. An empty value is a real answer, not a missing key.
    pub fn get(&self, key: &str) -> (value: Option<&str>)
        ensures
            match value {
                Some(value) => value_of(self@, key@) == Some(value@),
                None => value_of(self@, key@) is None,
            },
    {
        let mut i: usize = self.entries.len();
        assert(self@.take(i as int) =~= self@);
        while i > 0
            invariant
                i <= self.entries@.len(),
                value_of(self@, key@) == value_of(self@.take(i as int), key@),
            decreases i,
        {
            let ghost here = self@.take(i as int);
            assert(here.last() == (self.entries@[i - 1].0@, self.entries@[i - 1].1@));
            assert(here.drop_last() =~= self@.take(i - 1));
            i -= 1;
            if text::same_text(self.entries[i].0.as_str(), key) {
                return Some(self.entries[i].1.as_str());
            }
        }
        None
    }
}

/// What is written down last for a key counts, and says nothing of any other key.
pub proof fn law_the_last_value_counts(
    entries: Seq<(Seq<char>, Seq<char>)>,
    key: Seq<char>,
    value: Seq<char>,
    other: Seq<char>,
)
    requires
        other != key,
    ensures
        value_of(entries.push((key, value)), key) == Some(value),
        value_of(entries.push((key, value)), other) == value_of(entries, other),
        value_of(Seq::empty(), key) is None,
{
    assert(entries.push((key, value)).drop_last() =~= entries);
}

} // verus!
