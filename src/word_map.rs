//! The running count of each adjective seen.

use vstd::prelude::*;
use crate::report::{
    lemma_precedes_total, lemma_precedes_transitive, line_view, lines_view, precedes, word_before,
    Report,
};
use crate::tagging::{adjective_occurrences, adjective_total, is_adjective_label, TaggedWord, label_jj, label_jjr, label_jjs};

verus! {

/// Sum of the counts of the entries whose word is `w`.
pub open spec fn count_in(entries: Seq<(String, usize)>, w: Seq<char>) -> nat
    decreases entries.len(),
{
    if entries.len() == 0 {
        0
    } else {
        let last = entries.last();
        count_in(entries.drop_last(), w) + if last.0@ == w {
            last.1 as nat
        } else {
            0nat
        }
    }
}

/// Sum of all the counts of the entries.
pub open spec fn total_in(entries: Seq<(String, usize)>) -> nat
    decreases entries.len(),
{
    if entries.len() == 0 {
        0
    } else {
        total_in(entries.drop_last()) + entries.last().1 as nat
    }
}

/// With one entry per word, a word's count is that of its entry.
proof fn lemma_count_unique(entries: Seq<(String, usize)>, i: int)
    requires
        0 <= i < entries.len(),
        forall|a: int, b: int| 0 <= a < b < entries.len() ==> entries[a].0@ != entries[b].0@,
    ensures
        count_in(entries, entries[i].0@) == entries[i].1 as nat,
    decreases entries.len(),
{
    let w = entries[i].0@;
    if i < entries.len() - 1 {
        lemma_count_unique(entries.drop_last(), i);
    } else {
        lemma_count_absent(entries.drop_last(), w);
    }
}

/// A word with no entry has count zero.
proof fn lemma_count_absent(entries: Seq<(String, usize)>, w: Seq<char>)
    requires
        forall|a: int| 0 <= a < entries.len() ==> entries[a].0@ != w,
    ensures
        count_in(entries, w) == 0,
    decreases entries.len(),
{
    if entries.len() > 0 {
        lemma_count_absent(entries.drop_last(), w);
    }
}

/// No word's count exceeds the sum of all counts.
proof fn lemma_count_le_total(entries: Seq<(String, usize)>, w: Seq<char>)
    ensures
        count_in(entries, w) <= total_in(entries),
    decreases entries.len(),
{
    if entries.len() > 0 {
        lemma_count_le_total(entries.drop_last(), w);
    }
}

/// Changing the count of one entry changes that word's count and the total
/// by the same amount, and no other word's count.
proof fn lemma_update(entries: Seq<(String, usize)>, i: int, v: usize)
    requires
        0 <= i < entries.len(),
    ensures
        ({
            let e2 = entries.update(i, (entries[i].0, v));
            &&& total_in(e2) + entries[i].1 == total_in(entries) + v
            &&& forall|w: Seq<char>|
                #![trigger count_in(e2, w)]
                count_in(e2, w) + (if w == entries[i].0@ {
                    entries[i].1 as nat
                } else {
                    0nat
                }) == count_in(entries, w) + (if w == entries[i].0@ {
                    v as nat
                } else {
                    0nat
                })
        }),
    decreases entries.len(),
{
    let e2 = entries.update(i, (entries[i].0, v));
    if i == entries.len() - 1 {
        assert(e2.drop_last() =~= entries.drop_last());
    } else {
        lemma_update(entries.drop_last(), i, v);
        assert(e2.drop_last() =~= entries.drop_last().update(i, (entries[i].0, v)));
    }
    assert forall|w: Seq<char>|
        #![trigger count_in(e2, w)]
        count_in(e2, w) + (if w == entries[i].0@ {
            entries[i].1 as nat
        } else {
            0nat
        }) == count_in(entries, w) + (if w == entries[i].0@ {
            v as nat
        } else {
            0nat
        }) by {
        assert(count_in(e2, w) == count_in(e2.drop_last(), w) + if e2.last().0@ == w {
            e2.last().1 as nat
        } else {
            0nat
        });
    }
}

/// A map from word to the number of times it was recorded as an adjective.
///
/// Each word has one entry, with a count of at least one, and `total` is the
/// sum of all counts.
pub struct WordMap {
    entries: Vec<(String, usize)>,
    total: usize,
}

impl WordMap {
    /// One entry per word, each count positive, and `total` their sum.
    pub closed spec fn wf(&self) -> bool {
        &&& forall|i: int, j: int|
            0 <= i < j < self.entries@.len() ==> self.entries@[i].0@ != self.entries@[j].0@
        &&& forall|i: int| 0 <= i < self.entries@.len() ==> self.entries@[i].1 >= 1
        &&& self.total as nat == total_in(self.entries@)
    }

    /// How many times `w` was recorded.
    pub closed spec fn count(&self, w: Seq<char>) -> nat {
        count_in(self.entries@, w)
    }

    /// How many adjectives were recorded in all.
    pub closed spec fn total(&self) -> nat {
        self.total as nat
    }

    /// The words with their counts; a word is present iff its count is positive.
    pub open spec fn view(&self) -> Map<Seq<char>, nat> {
        Map::new(|w: Seq<char>| self.count(w) > 0, |w: Seq<char>| self.count(w))
    }

    /// An empty map.
    pub fn new() -> (r: Self)
        ensures
            r.wf(),
            r.total() == 0,
            forall|w: Seq<char>| r.count(w) == 0,
    {
        WordMap { entries: Vec::new(), total: 0 }
    }

    /// How many adjectives were recorded in all.
    pub fn recorded(&self) -> (r: usize)
        requires
            self.wf(),
        ensures
            r as nat == self.total(),
    {
        self.total
    }

    /// Records one more occurrence of `word`.
    pub fn add_word(&mut self, word: &str)
        requires
            old(self).wf(),
            old(self).total() < usize::MAX,
        ensures
            final(self).wf(),
            final(self).total() == old(self).total() + 1,
            forall|w: Seq<char>|
                #![trigger final(self).count(w)]
                final(self).count(w) == old(self).count(w) + if w == word@ {
                    1nat
                } else {
                    0nat
                },
    {
        let key = String::from_str(word);
        let n = self.entries.len();
        let mut i: usize = 0;
        while i < n
            invariant
                n == self.entries@.len(),
                i <= n,
                key@ == word@,
                forall|a: int| 0 <= a < i ==> self.entries@[a].0@ != word@,
            ensures
                i <= n,
                i < n ==> self.entries@[i as int].0@ == word@,
                forall|a: int| 0 <= a < i ==> self.entries@[a].0@ != word@,
            decreases n - i,
        {
            if self.entries[i].0 == key {
                break;
            }
            i += 1;
        }
        let ghost before = self.entries@;
        if i < n {
            let c = self.entries[i].1;
            proof {
                lemma_count_unique(before, i as int);
                lemma_count_le_total(before, word@);
            }
            let k = self.entries[i].0.clone();
            self.entries.set(i, (k, c + 1));
            self.total = self.total + 1;
            proof {
                lemma_update(before, i as int, (c + 1) as usize);
                assert(self.entries@ =~= before.update(i as int, (before[i as int].0, (c + 1) as usize)));
                assert forall|w: Seq<char>|
                    #![trigger self.count(w)]
                    self.count(w) == old(self).count(w) + if w == word@ {
                        1nat
                    } else {
                        0nat
                    } by {
                    assert(count_in(self.entries@, w) == count_in(before, w) + if w == word@ {
                        1nat
                    } else {
                        0nat
                    });
                }
            }
        } else {
            self.entries.push((key, 1));
            self.total = self.total + 1;
            proof {
                assert(self.entries@.drop_last() =~= before);
            }
        }
    }

    /// Records each word of `tagged` whose label names an adjective, in order.
    pub fn tag(&mut self, tagged: &Vec<TaggedWord>)
        requires
            old(self).wf(),
            old(self).total() + tagged@.len() <= usize::MAX,
        ensures
            final(self).wf(),
            final(self).total() == old(self).total() + adjective_total(tagged@),
            forall|w: Seq<char>|
                #![trigger final(self).count(w)]
                final(self).count(w) == old(self).count(w) + adjective_occurrences(tagged@, w),
    {
        let n = tagged.len();
        let mut i: usize = 0;
        while i < n
            invariant
                n == tagged@.len(),
                i <= n,
                self.wf(),
                self.total() == old(self).total() + adjective_total(tagged@.take(i as int)),
                adjective_total(tagged@.take(i as int)) <= i,
                old(self).total() + n <= usize::MAX,
                forall|w: Seq<char>|
                    #![trigger self.count(w)]
                    self.count(w) == old(self).count(w) + adjective_occurrences(
                        tagged@.take(i as int),
                        w,
                    ),
            decreases n - i,
        {
            let ghost prev = tagged@.take(i as int);
            proof {
                assert(tagged@.take(i + 1).drop_last() =~= prev);
            }
            if WordMap::is_adjective(tagged[i].label.as_str()) {
                self.add_word(tagged[i].word.as_str());
            }
            i += 1;
        }
        proof {
            assert(tagged@.take(n as int) =~= tagged@);
        }
    }

    /// Ranks the recorded words: the highest count first, equal counts by word.
    pub fn report(&self) -> (r: Report)
        requires
            self.wf(),
        ensures
            r.reports(self@),
    {
        let n = self.entries.len();
        let mut out: Vec<(String, usize)> = Vec::new();
        let ghost src: Seq<int> = Seq::empty();
        let ghost pos: Seq<int> = Seq::empty();
        let mut i: usize = 0;
        while i < n
            invariant
                n == self.entries@.len(),
                i <= n,
                self.wf(),
                out@.len() == i,
                src.len() == i,
                pos.len() == i,
                forall|a: int, b: int|
                    0 <= a < b < out@.len() ==> precedes(line_view(out@[a]), line_view(out@[b])),
                forall|a: int|
                    #![trigger src[a]]
                    0 <= a < i ==> 0 <= src[a] < i && out@[a].0@ == self.entries@[src[a]].0@
                        && out@[a].1 == self.entries@[src[a]].1,
                forall|j: int|
                    #![trigger pos[j]]
                    0 <= j < i ==> 0 <= pos[j] < i && out@[pos[j]].0@ == self.entries@[j].0@,
            decreases n - i,
        {
            let cnt = self.entries[i].1;
            let ghost e = line_view(self.entries@[i as int]);
            let mut p: usize = 0;
            while p < out.len()
                invariant
                    i < n,
                    n == self.entries@.len(),
                    p <= out@.len(),
                    cnt == self.entries@[i as int].1,
                    e == line_view(self.entries@[i as int]),
                    forall|b: int| 0 <= b < p ==> !precedes(e, #[trigger] line_view(out@[b])),
                ensures
                    p <= out@.len(),
                    p < out@.len() ==> precedes(e, line_view(out@[p as int])),
                    forall|b: int| 0 <= b < p ==> !precedes(e, #[trigger] line_view(out@[b])),
                decreases out@.len() - p,
            {
                let c = out[p].1;
                if cnt > c || (cnt == c && word_before(
                    self.entries[i].0.as_str(),
                    out[p].0.as_str(),
                )) {
                    break;
                }
                p += 1;
            }
            let ghost old_out = out@;
            let k = self.entries[i].0.clone();
            out.insert(p, (k, cnt));
            proof {
                let pi = p as int;
                assert forall|a: int| 0 <= a < pi implies out@[a] == old_out[a] by {}
                assert forall|a: int| pi < a < out@.len() implies out@[a] == old_out[a - 1] by {}
                assert forall|a: int, b: int|
                    0 <= a < b < out@.len() implies precedes(
                    line_view(out@[a]),
                    line_view(out@[b]),
                ) by {
                    if a < pi && b == pi {
                        assert(old_out[a].0@ == self.entries@[src[a]].0@);
                        assert(self.entries@[src[a]].0@ != self.entries@[i as int].0@);
                        lemma_precedes_total(e, line_view(old_out[a]));
                    } else if a == pi && b > pi + 1 {
                        lemma_precedes_transitive(
                            e,
                            line_view(old_out[pi]),
                            line_view(old_out[b - 1]),
                        );
                    }
                }
                let old_src = src;
                src = src.insert(pi, i as int);
                assert forall|a: int|
                    #![trigger src[a]]
                    0 <= a < i + 1 implies 0 <= src[a] < i + 1 && out@[a].0@ == self.entries@[src[a]].0@
                        && out@[a].1 == self.entries@[src[a]].1 by {
                    if a < pi {
                        assert(old_out[a] == out@[a]);
                        assert(src[a] == old_src[a]);
                    } else if a > pi {
                        assert(old_out[a - 1] == out@[a]);
                        assert(src[a] == old_src[a - 1]);
                    }
                }
                pos = Seq::new(
                    (i + 1) as nat,
                    |j: int|
                        if j == i {
                            pi
                        } else if pos[j] >= pi {
                            pos[j] + 1
                        } else {
                            pos[j]
                        },
                );
            }
            i += 1;
        }
        proof {
            assert forall|w: Seq<char>| #[trigger] self@.contains_key(w) implies exists|a: int|
                0 <= a < out@.len() && line_view(out@[a]).0 == w by {
                if forall|j: int| 0 <= j < n ==> self.entries@[j].0@ != w {
                    lemma_count_absent(self.entries@, w);
                }
                let j = choose|j: int| 0 <= j < n && self.entries@[j].0@ == w;
                assert(line_view(out@[pos[j]]).0 == w);
            }
            assert forall|a: int| 0 <= a < out@.len() implies self@.contains_key(
                #[trigger] line_view(out@[a]).0,
            ) && self@[line_view(out@[a]).0] == line_view(out@[a]).1 by {
                assert(0 <= src[a] < n && out@[a].0@ == self.entries@[src[a]].0@);
                lemma_count_unique(self.entries@, src[a]);
            }
        }
        if out.len() == 0 {
            proof {
                assert forall|w: Seq<char>| !self@.contains_key(w) by {
                    lemma_count_absent(self.entries@, w);
                }
                assert(self@.dom() =~= Set::empty());
            }
            Report::NoAdjectives
        } else {
            proof {
                let lv = lines_view(out@);
                assert forall|a: int| 0 <= a < out@.len() implies lv[a] == line_view(
                    #[trigger] out@[a],
                ) by {}
            }
            Report::Ranked(out)
        }
    }

    /// Whether `label` names an adjective: a plain, comparative or superlative one.
    pub fn is_adjective(label: &str) -> (r: bool)
        ensures
            r == is_adjective_label(label@),
    {
        let n = label.unicode_len();
        if n < 2 || n > 3 {
            assert(label@.len() != 2 && label@.len() != 3);
            return false;
        }
        if label.get_char(0) != 'J' || label.get_char(1) != 'J' {
            assert(label@ != label_jj() && label@ != label_jjr() && label@ != label_jjs()) by {
                if label@ == label_jj() || label@ == label_jjr() || label@ == label_jjs() {
                    assert(label@[0] == 'J' && label@[1] == 'J');
                }
            }
            return false;
        }
        if n == 2 {
            assert(label@ =~= label_jj());
            return true;
        }
        let c = label.get_char(2);
        if c == 'R' {
            assert(label@ =~= label_jjr());
            true
        } else if c == 'S' {
            assert(label@ =~= label_jjs());
            true
        } else {
            assert(label@ != label_jjr() && label@ != label_jjs()) by {
                if label@ == label_jjr() || label@ == label_jjs() {
                    assert(label@[2] == 'R' || label@[2] == 'S');
                }
            }
            false
        }
    }
}

} // verus!
