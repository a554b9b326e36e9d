use tfsearch::chars::text_chars;
use tfsearch::index::build_index;
use tfsearch::index::DocSource;
use tfsearch::rank::search;
use tfsearch::tf::tokenize_terms;

fn ok_doc(id: &str, text: &str) -> DocSource {
    DocSource { id: text_chars(id), text: Ok(text_chars(text)) }
}

fn query(q: &str) -> Vec<Vec<char>> {
    tokenize_terms(text_chars(q).as_slice())
}

#[test]
fn partial_failure_keeps_the_rest() {
    let report = build_index(vec![
        ok_doc("a", "apple banana"),
        DocSource { id: text_chars("b"), text: Err(tfsearch::ExtractionError) },
        ok_doc("c", "cherry"),
    ]);
    assert_eq!(report.index.docs.len(), 2);
    assert_eq!(report.index.docs[0].id, text_chars("a"));
    assert_eq!(report.index.docs[1].id, text_chars("c"));
    assert_eq!(report.failures.len(), 1);
    assert_eq!(report.failures[0], text_chars("b"));
}

#[test]
fn unmatched_documents_never_appear() {
    let report = build_index(vec![
        ok_doc("a", "apple fruit"),
        ok_doc("b", "car engine"),
        ok_doc("c", "apple pie"),
    ]);
    let r = search(&report.index, &query("apple"));
    assert_eq!(r.len(), 2);
    for e in r.iter() {
        assert_ne!(e.doc_id, text_chars("b"));
    }
}

#[test]
fn search_is_deterministic() {
    let report = build_index(vec![
        ok_doc("a", "x y z x"),
        ok_doc("b", "y z"),
        ok_doc("c", "x x x"),
    ]);
    let q = query("x y");
    let r1 = search(&report.index, &q);
    let r2 = search(&report.index, &q);
    assert_eq!(r1.len(), r2.len());
    for (e1, e2) in r1.iter().zip(r2.iter()) {
        assert_eq!(e1.doc_id, e2.doc_id);
        assert_eq!(e1.num, e2.num);
        assert_eq!(e1.den, e2.den);
    }
}

#[test]
fn equal_scores_order_by_identifier() {
    let report = build_index(vec![
        ok_doc("delta", "same text"),
        ok_doc("alpha", "same text"),
        ok_doc("carol", "same text"),
    ]);
    let r = search(&report.index, &query("same"));
    assert_eq!(r.len(), 3);
    assert_eq!(r[0].doc_id, text_chars("alpha"));
    assert_eq!(r[1].doc_id, text_chars("carol"));
    assert_eq!(r[2].doc_id, text_chars("delta"));
}

#[test]
fn term_frequency_dominates_at_equal_weight() {
    // the shared term has a positive weight: it misses two of four documents
    let mut filler_b = String::from("term");
    for _ in 0..99 {
        filler_b.push_str(" pad");
    }
    let report = build_index(vec![
        ok_doc("a", "term term term term term u v w x y"),
        ok_doc("b", &filler_b),
        ok_doc("c", "other things"),
        ok_doc("d", "more other things"),
    ]);
    let r = search(&report.index, &query("term"));
    assert_eq!(r.len(), 2);
    assert_eq!(r[0].doc_id, text_chars("a"));
    assert_eq!(r[1].doc_id, text_chars("b"));
}

#[test]
fn two_document_tie_breaks_by_identifier() {
    // with the term in both of the only two documents its weight is zero,
    // so both scores vanish and the identifier decides
    let mut text_b = String::from("term");
    for _ in 0..99 {
        text_b.push_str(" pad");
    }
    let report = build_index(vec![
        ok_doc("a", "term term term term term u v w x y"),
        ok_doc("b", &text_b),
    ]);
    let r = search(&report.index, &query("term"));
    assert_eq!(r.len(), 2);
    assert_eq!(r[0].doc_id, text_chars("a"));
    assert_eq!(r[1].doc_id, text_chars("b"));
}

#[test]
fn rare_terms_outrank_common_ones() {
    // one term in exactly one of a hundred documents, the other in all
    let mut docs: Vec<DocSource> = Vec::new();
    docs.push(ok_doc("rare00", "rare common"));
    for i in 1..100 {
        docs.push(ok_doc(&format!("doc{:02}", i), "filler common"));
    }
    let report = build_index(docs);
    let r = search(&report.index, &query("rare common"));
    assert_eq!(r.len(), 100);
    assert_eq!(r[0].doc_id, text_chars("rare00"));
}

#[test]
fn scores_follow_the_integer_weight_formula() {
    // four documents, the term in one: weight = floor(log2 4) - floor(log2 1) = 2
    let report = build_index(vec![
        ok_doc("a", "term x y z"),
        ok_doc("b", "p"),
        ok_doc("c", "q"),
        ok_doc("d", "r"),
    ]);
    let r = search(&report.index, &query("term"));
    assert_eq!(r.len(), 1);
    assert_eq!(r[0].num, 2);
    assert_eq!(r[0].den, 4);
}
