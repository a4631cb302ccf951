//! The ranked report of adjective counts and the order it follows.

use vstd::prelude::*;

verus! {

/// Lexicographic order on words, by character code.
pub open spec fn word_less(a: Seq<char>, b: Seq<char>) -> bool
    decreases a.len(),
{
    if a.len() == 0 {
        b.len() > 0
    } else if b.len() == 0 {
        false
    } else if a[0] != b[0] {
        a[0] < b[0]
    } else {
        word_less(a.skip(1), b.skip(1))
    }
}

/// `a` comes before `b` in a report: a higher count first, then the smaller word.
pub open spec fn precedes(a: (Seq<char>, nat), b: (Seq<char>, nat)) -> bool {
    a.1 > b.1 || (a.1 == b.1 && word_less(a.0, b.0))
}

/// A report line as a word and its count.
pub open spec fn line_view(p: (String, usize)) -> (Seq<char>, nat) {
    (p.0@, p.1 as nat)
}

/// The lines of a ranked report as words and counts.
pub open spec fn lines_view(v: Seq<(String, usize)>) -> Seq<(Seq<char>, nat)> {
    v.map_values(|p: (String, usize)| line_view(p))
}

/// `r` lists each word of `m` once with its count, in the order of `precedes`.
pub open spec fn is_ranking(m: Map<Seq<char>, nat>, r: Seq<(Seq<char>, nat)>) -> bool {
    &&& forall|i: int, j: int| 0 <= i < j < r.len() ==> precedes(r[i], r[j])
    &&& forall|i: int| 0 <= i < r.len() ==> m.contains_key(#[trigger] r[i].0) && m[r[i].0] == r[i].1
    &&& forall|w: Seq<char>| m.contains_key(w) ==> exists|i: int| 0 <= i < r.len() && r[i].0 == w
}

/// The outcome of ranking the counted adjectives.
pub enum Report {
    /// No adjective was counted.
    NoAdjectives,
    /// Each counted adjective with its count, most frequent first.
    Ranked(Vec<(String, usize)>),
}

impl Report {
    /// The report is the one that the counts `m` call for.
    pub open spec fn reports(&self, m: Map<Seq<char>, nat>) -> bool {
        match self {
            Report::NoAdjectives => m.dom() =~= Set::empty(),
            Report::Ranked(v) => v@.len() > 0 && is_ranking(m, lines_view(v@)),
        }
    }

    /// The report's lines as words and counts; none where no adjective was counted.
    pub open spec fn lines(&self) -> Seq<(Seq<char>, nat)> {
        match self {
            Report::NoAdjectives => Seq::empty(),
            Report::Ranked(v) => lines_view(v@),
        }
    }
}

/// Counts have exactly one ranking: two rankings of the same counts are equal.
pub proof fn lemma_ranking_unique(
    m: Map<Seq<char>, nat>,
    r1: Seq<(Seq<char>, nat)>,
    r2: Seq<(Seq<char>, nat)>,
)
    requires
        is_ranking(m, r1),
        is_ranking(m, r2),
    ensures
        r1 == r2,
    decreases r1.len(),
{
    if r1.len() == 0 {
        if r2.len() > 0 {
            assert(m.contains_key(r2[0].0));
        }
        assert(r1 =~= r2);
    } else {
        let k = r1[0].0;
        assert(m.contains_key(k));
        let j = choose|j: int| 0 <= j < r2.len() && r2[j].0 == k;
        assert(m.contains_key(r2[0].0));
        let i = choose|i: int| 0 <= i < r1.len() && r1[i].0 == r2[0].0;
        assert(r2[j] == r1[0]);
        assert(r1[i] == r2[0]);
        if j > 0 {
            assert(precedes(r2[0], r2[j]));
            if i > 0 {
                lemma_precedes_asymmetric(r1[0], r1[i]);
            } else {
                lemma_word_less_irreflexive(k);
            }
        }
        let m2 = m.remove(k);
        let t1 = r1.drop_first();
        let t2 = r2.drop_first();
        assert forall|x: int| 0 <= x < t1.len() implies #[trigger] t1[x].0 != k by {
            assert(precedes(r1[0], r1[x + 1]));
            lemma_word_less_irreflexive(k);
        }
        assert forall|x: int| 0 <= x < t2.len() implies #[trigger] t2[x].0 != k by {
            assert(precedes(r2[0], r2[x + 1]));
            lemma_word_less_irreflexive(k);
        }
        assert forall|w: Seq<char>| m2.contains_key(w) implies exists|x: int|
            0 <= x < t1.len() && t1[x].0 == w by {
            let x = choose|x: int| 0 <= x < r1.len() && r1[x].0 == w;
            assert(t1[x - 1].0 == w);
        }
        assert forall|w: Seq<char>| m2.contains_key(w) implies exists|x: int|
            0 <= x < t2.len() && t2[x].0 == w by {
            let x = choose|x: int| 0 <= x < r2.len() && r2[x].0 == w;
            assert(t2[x - 1].0 == w);
        }
        assert forall|x: int, y: int| 0 <= x < y < t1.len() implies precedes(t1[x], t1[y]) by {
            assert(precedes(r1[x + 1], r1[y + 1]));
        }
        assert forall|x: int, y: int| 0 <= x < y < t2.len() implies precedes(t2[x], t2[y]) by {
            assert(precedes(r2[x + 1], r2[y + 1]));
        }
        lemma_ranking_unique(m2, t1, t2);
        assert(j == 0);
        assert(r1.len() == t1.len() + 1 && r2.len() == t2.len() + 1);
        assert forall|x: int| 0 <= x < r1.len() implies r1[x] == r2[x] by {
            if x > 0 {
                assert(r1[x] == t1[x - 1] && r2[x] == t2[x - 1]);
            }
        }
        assert(r1 =~= r2);
    }
}

/// Ranking the same counts twice gives the same report, line for line.
pub proof fn lemma_report_unique(m: Map<Seq<char>, nat>, a: Report, b: Report)
    requires
        a.reports(m),
        b.reports(m),
    ensures
        a.lines() == b.lines(),
        a is NoAdjectives <==> b is NoAdjectives,
{
    match (a, b) {
        (Report::Ranked(x), Report::Ranked(y)) => {
            lemma_ranking_unique(m, lines_view(x@), lines_view(y@));
        },
        (Report::Ranked(x), Report::NoAdjectives) => {
            assert(m.contains_key(lines_view(x@)[0].0));
        },
        (Report::NoAdjectives, Report::Ranked(y)) => {
            assert(m.contains_key(lines_view(y@)[0].0));
        },
        _ => {},
    }
}

/// No word comes before itself.
pub proof fn lemma_word_less_irreflexive(a: Seq<char>)
    ensures
        !word_less(a, a),
    decreases a.len(),
{
    if a.len() > 0 {
        lemma_word_less_irreflexive(a.skip(1));
    }
}

/// Of two different words, one comes before the other.
pub proof fn lemma_word_less_total(a: Seq<char>, b: Seq<char>)
    requires
        a != b,
    ensures
        word_less(a, b) || word_less(b, a),
    decreases a.len(),
{
    if a.len() == 0 && b.len() == 0 {
        assert(a =~= b);
    }
    if a.len() > 0 && b.len() > 0 && a[0] == b[0] {
        assert(a =~= seq![a[0]] + a.skip(1));
        assert(b =~= seq![b[0]] + b.skip(1));
        lemma_word_less_total(a.skip(1), b.skip(1));
    } else if a.len() > 0 && b.len() > 0 {
        assert(a[0] != b[0]);
    }
}

/// Two words never come each before the other.
pub proof fn lemma_word_less_asymmetric(a: Seq<char>, b: Seq<char>)
    requires
        word_less(a, b),
    ensures
        !word_less(b, a),
    decreases a.len(),
{
    if a.len() > 0 && b.len() > 0 && a[0] == b[0] {
        lemma_word_less_asymmetric(a.skip(1), b.skip(1));
    }
}

/// The order of words is transitive.
pub proof fn lemma_word_less_transitive(a: Seq<char>, b: Seq<char>, c: Seq<char>)
    requires
        word_less(a, b),
        word_less(b, c),
    ensures
        word_less(a, c),
    decreases a.len(),
{
    if a.len() > 0 && b.len() > 0 && c.len() > 0 && a[0] == b[0] && b[0] == c[0] {
        lemma_word_less_transitive(a.skip(1), b.skip(1), c.skip(1));
    }
}

/// The order of report lines is transitive.
pub proof fn lemma_precedes_transitive(
    x: (Seq<char>, nat),
    y: (Seq<char>, nat),
    z: (Seq<char>, nat),
)
    requires
        precedes(x, y),
        precedes(y, z),
    ensures
        precedes(x, z),
{
    if x.1 == y.1 && y.1 == z.1 {
        lemma_word_less_transitive(x.0, y.0, z.0);
    }
}

/// Of two lines with different words, one comes before the other.
pub proof fn lemma_precedes_total(x: (Seq<char>, nat), y: (Seq<char>, nat))
    requires
        x.0 != y.0,
    ensures
        precedes(x, y) || precedes(y, x),
{
    lemma_word_less_total(x.0, y.0);
}

/// Two lines never come each before the other.
pub proof fn lemma_precedes_asymmetric(x: (Seq<char>, nat), y: (Seq<char>, nat))
    requires
        precedes(x, y),
    ensures
        !precedes(y, x),
{
    if x.1 == y.1 {
        lemma_word_less_asymmetric(x.0, y.0);
    }
}

/// Whether `a` comes before `b` in lexicographic order.
pub fn word_before(a: &str, b: &str) -> (r: bool)
    ensures
        r == word_less(a@, b@),
{
    let n = a.unicode_len();
    let m = b.unicode_len();
    let mut i: usize = 0;
    proof {
        assert(a@.skip(0) =~= a@);
        assert(b@.skip(0) =~= b@);
    }
    while i < n && i < m
        invariant
            n == a@.len(),
            m == b@.len(),
            i <= n,
            i <= m,
            word_less(a@, b@) == word_less(a@.skip(i as int), b@.skip(i as int)),
        decreases n - i,
    {
        let x = a.get_char(i);
        let y = b.get_char(i);
        if x != y {
            return x < y;
        }
        proof {
            assert(a@.skip(i as int).skip(1) =~= a@.skip(i + 1));
            assert(b@.skip(i as int).skip(1) =~= b@.skip(i + 1));
        }
        i += 1;
    }
    i < m
}

} // verus!
