//! A table of letter frequencies, the input to the code-tree builder.

use crate::store::{assoc_map, lemma_assoc_at, lemma_assoc_contains, lemma_assoc_update, unique_keys};
use vstd::prelude::*;
use crate::text::str_eq;
use vstd::string::StrSliceExecFns;

verus! {

/// How many times a character occurs in a text.
pub open spec fn count_char(s: Seq<char>, c: char) -> int
    decreases s.len(),
{
    if s.len() == 0 {
        0
    } else {
        count_char(s.drop_last(), c) + if s.last() == c {
            1int
        } else {
            0int
        }
    }
}

proof fn lemma_count_char_bound(s: Seq<char>, c: char)
    ensures
        0 <= count_char(s, c) <= s.len(),
    decreases s.len(),
{
    if s.len() > 0 {
        lemma_count_char_bound(s.drop_last(), c);
    }
}

proof fn lemma_count_char_absent(s: Seq<char>, c: char)
    requires
        !s.contains(c),
    ensures
        count_char(s, c) == 0,
    decreases s.len(),
{
    if s.len() > 0 {
        assert(s.last() != c);
        assert(!s.drop_last().contains(c)) by {
            if s.drop_last().contains(c) {
                let i = choose|i: int| 0 <= i < s.drop_last().len() && s.drop_last()[i] == c;
                assert(s[i] == c);
            }
        }
        lemma_count_char_absent(s.drop_last(), c);
    }
}

/// A map from one-character texts to how often the character occurs.
pub struct FrequencyTable {
    entries: Vec<(String, usize)>,
}

impl FrequencyTable {
    /// The counts, as a mathematical map keyed by one-character texts.
    pub closed spec fn counts(self) -> Map<Seq<char>, usize> {
        assoc_map(self.entries@)
    }

    /// Keys are unique.
    pub closed spec fn wf(self) -> bool {
        unique_keys(self.entries@)
    }

    /// The count stored for a key, if any.
    pub fn get(&self, key: &str) -> (r: Option<usize>)
        requires
            self.wf(),
        ensures
            match r {
                Option::Some(n) => self.counts().contains_key(key@) && n == self.counts()[key@],
                Option::None => !self.counts().contains_key(key@),
            },
    {
        let mut i: usize = 0;
        while i < self.entries.len()
            invariant
                self.wf(),
                i <= self.entries@.len(),
                forall|j: int| 0 <= j < i ==> (#[trigger] self.entries@[j]).0@ != key@,
            decreases self.entries@.len() - i,
        {
            if str_eq(self.entries[i].0.as_str(), key) {
                proof {
                    lemma_assoc_at(self.entries@, i as int);
                }
                return Some(self.entries[i].1);
            }
            i += 1;
        }
        proof {
            lemma_assoc_contains(self.entries@, key@);
        }
        None
    }
}

/// Counts each character of the text: the table maps the one-character
/// text of every character that occurs to the number of its occurrences,
/// and holds nothing else.
pub fn create_frequency_table(contents: &str) -> (t: FrequencyTable)
    ensures
        t.wf(),
        forall|c: char| contents@.contains(c) <==> t.counts().contains_key(seq![c]),
        forall|c: char|
            contents@.contains(c) ==> t.counts()[seq![c]] == count_char(contents@, c),
        forall|k: Seq<char>| #[trigger]
            t.counts().contains_key(k) ==> k.len() == 1 && contents@.contains(k[0]),
{
    let n = contents.unicode_len();
    let mut table = FrequencyTable { entries: Vec::new() };
    proof {
        assert(contents@.subrange(0, 0) =~= Seq::<char>::empty());
    }
    let mut i: usize = 0;
    while i < n
        invariant
            table.wf(),
            i <= n,
            n == contents@.len(),
            forall|c: char|
                contents@.subrange(0, i as int).contains(c) <==> table.counts().contains_key(
                    seq![c],
                ),
            forall|c: char|
                contents@.subrange(0, i as int).contains(c) ==> table.counts()[seq![c]]
                    == count_char(contents@.subrange(0, i as int), c),
            forall|k: Seq<char>| #[trigger]
                table.counts().contains_key(k) ==> k.len() == 1 && contents@.subrange(
                    0,
                    i as int,
                ).contains(k[0]),
        decreases n - i,
    {
        let ghost pre = contents@.subrange(0, i as int);
        let ghost now = contents@.subrange(0, i + 1int);
        let c = contents.get_char(i);
        let key = contents.substring_char(i, i + 1).to_owned();
        proof {
            assert(key@ =~= seq![c]);
            assert(now.drop_last() =~= pre);
            assert(now.last() == c);
            assert forall|d: char| now.contains(d) implies (d == c || pre.contains(d)) by {
                let j = choose|j: int| 0 <= j < now.len() && now[j] == d;
                if j < pre.len() {
                    assert(pre[j] == d);
                }
            }
            assert forall|d: char| pre.contains(d) implies now.contains(d) by {
                let j = choose|j: int| 0 <= j < pre.len() && pre[j] == d;
                assert(now[j] == d);
            }
            assert forall|d: char| d != c implies count_char(now, d) == count_char(pre, d) by {}
            assert(count_char(now, c) == count_char(pre, c) + 1);
            lemma_count_char_bound(pre, c);
        }
        let mut found: Option<usize> = None;
        let mut j: usize = 0;
        while j < table.entries.len()
            invariant
                table.wf(),
                j <= table.entries@.len(),
                key@ == seq![c],
                match found {
                    Option::Some(idx) => idx < table.entries@.len() && table.entries@[
                        idx as int
                    ].0@ == key@,
                    Option::None => forall|t: int|
                        0 <= t < j ==> (#[trigger] table.entries@[t]).0@ != key@,
                },
            ensures
                match found {
                    Option::Some(idx) => idx < table.entries@.len() && table.entries@[
                        idx as int
                    ].0@ == key@,
                    Option::None => forall|t: int|
                        0 <= t < table.entries@.len() ==> (#[trigger] table.entries@[t]).0@
                            != key@,
                },
            decreases table.entries@.len() - j,
        {
            if str_eq(table.entries[j].0.as_str(), key.as_str()) {
                found = Some(j);
                proof {
                    lemma_assoc_at(table.entries@, j as int);
                }
                break;
            }
            j += 1;
        }
        match found {
            Option::Some(idx) => {
                proof {
                    lemma_assoc_at(table.entries@, idx as int);
                    lemma_count_char_bound(pre, c);
                }
                let cur = table.entries[idx].1;
                let p = (table.entries[idx].0.clone(), cur + 1);
                proof {
                    lemma_assoc_update(table.entries@, idx as int, p);
                }
                table.entries[idx] = p;
            },
            Option::None => {
                proof {
                    lemma_assoc_contains(table.entries@, key@);
                    assert(!table.counts().contains_key(key@)) by {
                        if table.counts().contains_key(key@) {
                            let t = choose|t: int|
                                0 <= t < table.entries@.len() && (#[trigger] table.entries@[t]).0@
                                    == key@;
                        }
                    }
                    assert(!pre.contains(c));
                    lemma_count_char_absent(pre, c);
                }
                let ghost before = table.entries@;
                table.entries.push((key, 1));
                proof {
                    assert(table.entries@.drop_last() =~= before);
                }
            },
        }
        proof {
            assert(now.contains(c)) by {
                assert(now.last() == c);
            }
            assert forall|d: char| now.contains(d) implies table.counts().contains_key(
                seq![d],
            ) && table.counts()[seq![d]] == count_char(now, d) by {
                if d == c {
                } else {
                    assert(pre.contains(d));
                    assert(seq![d] != seq![c]) by {
                        assert(seq![d][0] == d);
                        assert(seq![c][0] == c);
                    }
                }
            }
            assert forall|d: char| table.counts().contains_key(seq![d]) implies now.contains(
                d,
            ) by {
                if d != c {
                    assert(seq![d] != seq![c]) by {
                        assert(seq![d][0] == d);
                        assert(seq![c][0] == c);
                    }
                    assert(pre.contains(d));
                }
            }
            assert forall|k: Seq<char>| #[trigger]
                table.counts().contains_key(k) implies k.len() == 1 && now.contains(k[0]) by {
                if k != seq![c] {
                    assert(pre.contains(k[0]));
                } else {
                    assert(k[0] == c);
                }
            }
        }
        i += 1;
    }
    proof {
        assert(contents@.subrange(0, n as int) =~= contents@);
    }
    table
}

} // verus!
