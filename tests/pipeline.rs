use pdf_words::report::Report;
use pdf_words::tagging::{tagger_input, TaggedWord};
use pdf_words::walker::{effective_limit, PageEvent, PageWalker};
use pdf_words::word_map::WordMap;

fn tw(word: &str, label: &str) -> TaggedWord {
    TaggedWord { word: word.to_string(), label: label.to_string() }
}

fn tagged(pairs: &[(&str, &str)]) -> PageEvent {
    PageEvent::Tagged(pairs.iter().map(|(w, l)| tw(w, l)).collect())
}

fn lines(r: &Report) -> Vec<(String, usize)> {
    match r {
        Report::NoAdjectives => panic!("expected a ranked report"),
        Report::Ranked(v) => v.clone(),
    }
}

fn rendered(r: &Report) -> Vec<String> {
    match r {
        Report::NoAdjectives => vec!["no adjectives found".to_string()],
        Report::Ranked(v) => v.iter().map(|(w, c)| format!("{}\t{}", w, c)).collect(),
    }
}

/// Runs a walk over the given page outcomes; outcomes past the walk's end are never handed in.
fn run(pages: Vec<PageEvent>, limit: Option<usize>) -> (PageWalker, usize) {
    let mut wk = PageWalker::new(limit, pages.len());
    let mut handed = 0;
    let mut it = pages.into_iter();
    while let Some(i) = wk.next_page() {
        assert_eq!(i, handed);
        let ev = it.next().unwrap();
        wk.handle(ev);
        handed += 1;
    }
    (wk, handed)
}

fn page_zero() -> PageEvent {
    tagged(&[
        ("the", "DT"),
        ("bright", "JJ"),
        ("sun", "NN"),
        (".", "."),
        ("a", "DT"),
        ("bright", "JJ"),
        ("idea", "NN"),
        (".", "."),
    ])
}

fn page_one() -> PageEvent {
    tagged(&[("a", "DT"), ("confident", "JJ"), ("plan", "NN"), (".", ".")])
}

#[test]
fn two_page_example_counts_and_order() {
    let (wk, handed) = run(vec![page_zero(), page_one()], None);
    assert_eq!(handed, 2);
    let r = wk.report();
    assert_eq!(
        lines(&r),
        vec![("bright".to_string(), 2), ("confident".to_string(), 1)]
    );
    assert_eq!(rendered(&r), vec!["bright\t2".to_string(), "confident\t1".to_string()]);
    assert_eq!(wk.word_map().recorded(), 3);
}

#[test]
fn read_failure_halts_walk() {
    let page_two = tagged(&[("happy", "JJ")]);
    let (wk, handed) = run(vec![page_zero(), PageEvent::ReadFailed, page_two], None);
    assert_eq!(handed, 2);
    assert_eq!(wk.next_page(), None);
    assert_eq!(lines(&wk.report()), vec![("bright".to_string(), 2)]);
}

#[test]
fn extraction_failure_skips_only_that_page() {
    let page_two = tagged(&[("happy", "JJ")]);
    let (wk, handed) = run(vec![page_zero(), PageEvent::ExtractFailed, page_two], None);
    assert_eq!(handed, 3);
    assert_eq!(
        lines(&wk.report()),
        vec![("bright".to_string(), 2), ("happy".to_string(), 1)]
    );
}

#[test]
fn tagging_failure_skips_only_that_page() {
    let page_two = tagged(&[("happy", "JJ")]);
    let (wk, handed) = run(vec![PageEvent::TagFailed, page_one(), page_two], None);
    assert_eq!(handed, 3);
    assert_eq!(
        lines(&wk.report()),
        vec![("confident".to_string(), 1), ("happy".to_string(), 1)]
    );
}

#[test]
fn no_adjectives_gives_explicit_result() {
    let p0 = tagged(&[("the", "DT"), ("sun", "NN")]);
    let p1 = tagged(&[]);
    let (wk, _) = run(vec![p0, p1], None);
    assert!(matches!(wk.report(), Report::NoAdjectives));
    assert_eq!(rendered(&wk.report()), vec!["no adjectives found".to_string()]);
}

#[test]
fn empty_document_gives_no_adjectives() {
    let (wk, handed) = run(vec![], Some(5));
    assert_eq!(handed, 0);
    assert!(matches!(wk.report(), Report::NoAdjectives));
}

#[test]
fn page_limit_restricts_pages() {
    let (wk, handed) = run(vec![page_zero(), page_one()], Some(1));
    assert_eq!(handed, 1);
    assert_eq!(lines(&wk.report()), vec![("bright".to_string(), 2)]);
}

#[test]
fn raising_page_limit_keeps_counts() {
    let pages = || vec![page_one(), page_zero(), tagged(&[("confident", "JJ")])];
    let mut previous: Vec<(String, usize)> = Vec::new();
    for l in 0..4 {
        let (wk, _) = run(pages(), Some(l));
        let now = match wk.report() {
            Report::NoAdjectives => Vec::new(),
            Report::Ranked(v) => v,
        };
        for (w, c) in &previous {
            let found = now.iter().find(|(x, _)| x == w).map(|(_, n)| *n).unwrap_or(0);
            assert!(found >= *c);
        }
        previous = now;
    }
    assert_eq!(
        previous,
        vec![("bright".to_string(), 2), ("confident".to_string(), 2)]
    );
}

#[test]
fn page_limit_zero_processes_nothing() {
    let (wk, handed) = run(vec![page_zero()], Some(0));
    assert_eq!(handed, 0);
    assert!(matches!(wk.report(), Report::NoAdjectives));
}

#[test]
fn effective_limit_takes_smaller() {
    assert_eq!(effective_limit(Some(2), 5), 2);
    assert_eq!(effective_limit(Some(9), 5), 5);
    assert_eq!(effective_limit(None, 5), 5);
    assert_eq!(effective_limit(Some(0), 5), 0);
}

#[test]
fn report_twice_is_identical() {
    let (wk, _) = run(vec![page_zero(), page_one()], None);
    assert_eq!(lines(&wk.report()), lines(&wk.report()));
}

#[test]
fn two_runs_are_identical() {
    let pages = || vec![tagged(&[("red", "JJ"), ("blue", "JJ"), ("green", "JJ")]), page_one()];
    let (a, _) = run(pages(), None);
    let (b, _) = run(pages(), None);
    assert_eq!(rendered(&a.report()), rendered(&b.report()));
}

#[test]
fn ties_broken_by_word() {
    let mut m = WordMap::new();
    for w in ["pear", "apple", "fig", "apple", "pear", "zest"] {
        m.add_word(w);
    }
    assert_eq!(
        lines(&m.report()),
        vec![
            ("apple".to_string(), 2),
            ("pear".to_string(), 2),
            ("fig".to_string(), 1),
            ("zest".to_string(), 1),
        ]
    );
    assert_eq!(m.recorded(), 6);
}

#[test]
fn adjective_labels() {
    assert!(WordMap::is_adjective("JJ"));
    assert!(WordMap::is_adjective("JJR"));
    assert!(WordMap::is_adjective("JJS"));
    assert!(!WordMap::is_adjective("NN"));
    assert!(!WordMap::is_adjective("jj"));
    assert!(!WordMap::is_adjective("JJX"));
    assert!(!WordMap::is_adjective("J"));
    assert!(!WordMap::is_adjective("JJRS"));
    assert!(!WordMap::is_adjective(""));
}

#[test]
fn inflected_forms_stay_distinct() {
    let mut m = WordMap::new();
    m.tag(&vec![tw("happy", "JJ"), tw("happier", "JJR"), tw("happiest", "JJS"), tw("happy", "JJ")]);
    assert_eq!(
        lines(&m.report()),
        vec![
            ("happy".to_string(), 2),
            ("happier".to_string(), 1),
            ("happiest".to_string(), 1),
        ]
    );
}

#[test]
fn tag_skips_non_adjectives() {
    let mut m = WordMap::new();
    m.tag(&vec![tw("run", "VB"), tw("bright", "JJ"), tw("sun", "NN")]);
    assert_eq!(m.recorded(), 1);
    assert_eq!(lines(&m.report()), vec![("bright".to_string(), 1)]);
}

#[test]
fn tagger_input_is_lower_case() {
    assert_eq!(tagger_input("Confident PLAN"), "confident plan");
    assert_eq!(tagger_input(""), "");
}

#[test]
fn case_variants_count_once_after_lowering() {
    let text = tagger_input("Confident");
    let other = tagger_input("confident");
    let mut m = WordMap::new();
    m.tag(&vec![tw(&text, "JJ"), tw(&other, "JJ")]);
    assert_eq!(lines(&m.report()), vec![("confident".to_string(), 2)]);
}

#[test]
fn empty_map_reports_no_adjectives() {
    let m = WordMap::new();
    assert!(matches!(m.report(), Report::NoAdjectives));
    assert_eq!(m.recorded(), 0);
}
