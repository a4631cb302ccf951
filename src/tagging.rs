//! Tagged words and the part-of-speech labels that count as adjectives.

use vstd::prelude::*;

verus! {

/// The label of a plain adjective.
pub open spec fn label_jj() -> Seq<char> {
    seq!['J', 'J']
}

/// The label of a comparative adjective.
pub open spec fn label_jjr() -> Seq<char> {
    seq!['J', 'J', 'R']
}

/// The label of a superlative adjective.
pub open spec fn label_jjs() -> Seq<char> {
    seq!['J', 'J', 'S']
}

/// A label names an adjective exactly when it is one of the three adjective tags.
pub open spec fn is_adjective_label(label: Seq<char>) -> bool {
    label == label_jj() || label == label_jjr() || label == label_jjs()
}

/// A word as the tagger returned it, with its part-of-speech label.
pub struct TaggedWord {
    pub word: String,
    pub label: String,
}

/// How many times `w` stands in `tagged` with an adjective label.
pub open spec fn adjective_occurrences(tagged: Seq<TaggedWord>, w: Seq<char>) -> nat
    decreases tagged.len(),
{
    if tagged.len() == 0 {
        0
    } else {
        let last = tagged.last();
        adjective_occurrences(tagged.drop_last(), w) + if last.word@ == w
            && is_adjective_label(last.label@) {
            1nat
        } else {
            0nat
        }
    }
}

/// How many words of `tagged` have an adjective label.
pub open spec fn adjective_total(tagged: Seq<TaggedWord>) -> nat
    decreases tagged.len(),
{
    if tagged.len() == 0 {
        0
    } else {
        adjective_total(tagged.drop_last()) + if is_adjective_label(tagged.last().label@) {
            1nat
        } else {
            0nat
        }
    }
}

/// The lower-case form of a text, as `str::to_lowercase` gives it.
pub uninterp spec fn lower_of(s: Seq<char>) -> Seq<char>;

/// Relies on `str::to_lowercase`: its result is the lower-case form of the
/// text, which depends on the text's characters alone, and is empty for an empty
/// text.
#[verifier::external_body]
fn lowercase(s: &str) -> (r: String)
    ensures
        r@ == lower_of(s@),
        s@.len() == 0 ==> r@.len() == 0,
{
    s.to_lowercase()
}

/// The text to hand the tagger for a page: its lower-case form, so that words
/// that differ only in case are counted as one.
pub fn tagger_input(text: &str) -> (r: String)
    ensures
        r@ == lower_of(text@),
        text@.len() == 0 ==> r@.len() == 0,
{
    lowercase(text)
}

} // verus!
