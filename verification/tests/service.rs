use tfsearch::chars::text_chars;
use tfsearch::index::build_index;
use tfsearch::index::DocSource;
use tfsearch::query::answer_query;
use tfsearch::query::QueryError;
use tfsearch::query::TOP_K;

fn ok_doc(id: &str, text: &str) -> DocSource {
    DocSource { id: text_chars(id), text: Ok(text_chars(text)) }
}

#[test]
fn empty_query_yields_an_empty_result() {
    let report = build_index(vec![ok_doc("a", "apple")]);
    let r = answer_query(&report.index, b"").expect("an empty query is not an error");
    assert_eq!(r.len(), 0);
}

#[test]
fn undecodable_bytes_are_a_decode_error() {
    let report = build_index(vec![ok_doc("a", "apple")]);
    let r = answer_query(&report.index, &[0xFF, 0xFE]);
    assert_eq!(r.unwrap_err(), QueryError::Decode);
}

#[test]
fn results_are_truncated_to_the_top_twenty() {
    let mut docs: Vec<DocSource> = Vec::new();
    for i in 0..50 {
        docs.push(ok_doc(&format!("doc{:02}", i), "apple pie"));
    }
    let report = build_index(docs);
    let r = answer_query(&report.index, b"apple").expect("a plain query succeeds");
    assert_eq!(r.len(), TOP_K);
    // equal scores throughout: the kept twenty are the identifier-least ones
    for (i, e) in r.iter().enumerate() {
        assert_eq!(e.doc_id, text_chars(&format!("doc{:02}", i)));
    }
}

#[test]
fn queries_normalize_like_documents() {
    let report = build_index(vec![ok_doc("a", "Apple"), ok_doc("b", "pear")]);
    let r = answer_query(&report.index, b"aPpLe").expect("query");
    assert_eq!(r.len(), 1);
    assert_eq!(r[0].doc_id, text_chars("a"));
}

#[test]
fn unmatched_queries_yield_no_results() {
    let report = build_index(vec![ok_doc("a", "apple")]);
    let r = answer_query(&report.index, b"zebra").expect("query");
    assert_eq!(r.len(), 0);
}
