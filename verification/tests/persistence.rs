use tfsearch::chars::text_chars;
use tfsearch::codec::load_index;
use tfsearch::codec::save_index;
use tfsearch::index::build_index;
use tfsearch::index::DocSource;

fn ok_doc(id: &str, text: &str) -> DocSource {
    DocSource { id: text_chars(id), text: Ok(text_chars(text)) }
}

#[test]
fn round_trip_reproduces_the_index() {
    let report = build_index(vec![
        ok_doc("a.xml", "alpha beta beta 42"),
        ok_doc("b.xml", "gamma \"quoted\" back\\slash"),
        ok_doc("c.xml", ""),
    ]);
    let ix = report.index;
    let saved = save_index(&ix);
    let loaded = load_index(saved.as_slice()).expect("a saved index must load");
    assert_eq!(loaded.docs.len(), ix.docs.len());
    for (a, b) in loaded.docs.iter().zip(ix.docs.iter()) {
        assert_eq!(a.id, b.id);
        assert_eq!(a.table.total, b.table.total);
        assert_eq!(a.table.entries.len(), b.table.entries.len());
        for (x, y) in a.table.entries.iter().zip(b.table.entries.iter()) {
            assert_eq!(x.0, y.0);
            assert_eq!(x.1, y.1);
        }
    }
}

#[test]
fn empty_index_round_trips() {
    let report = build_index(vec![]);
    let saved = save_index(&report.index);
    assert_eq!(saved.iter().collect::<String>(), "{}");
    let loaded = load_index(saved.as_slice()).expect("the empty index must load");
    assert_eq!(loaded.docs.len(), 0);
}

#[test]
fn encoding_is_the_documented_map_of_maps() {
    let report = build_index(vec![ok_doc("d", "x y x")]);
    let saved: String = save_index(&report.index).iter().collect();
    assert_eq!(saved, "{\"d\":{\"X\":2,\"Y\":1}}");
}

#[test]
fn truncated_input_is_refused() {
    assert!(load_index(text_chars("{\"a\":{\"B\":1}").as_slice()).is_err());
    assert!(load_index(text_chars("{").as_slice()).is_err());
    assert!(load_index(text_chars("").as_slice()).is_err());
}

#[test]
fn trailing_garbage_is_refused() {
    assert!(load_index(text_chars("{} ").as_slice()).is_err());
}

#[test]
fn zero_counts_are_refused() {
    assert!(load_index(text_chars("{\"a\":{\"B\":0}}").as_slice()).is_err());
}

#[test]
fn leading_zeros_are_refused() {
    assert!(load_index(text_chars("{\"a\":{\"B\":01}}").as_slice()).is_err());
}

#[test]
fn duplicate_identifiers_are_refused() {
    assert!(load_index(text_chars("{\"a\":{\"B\":1},\"a\":{\"C\":1}}").as_slice()).is_err());
}

#[test]
fn unsorted_terms_are_refused() {
    assert!(load_index(text_chars("{\"a\":{\"C\":1,\"B\":1}}").as_slice()).is_err());
}

#[test]
fn unknown_escapes_are_refused() {
    assert!(load_index(text_chars("{\"a\\n\":{\"B\":1}}").as_slice()).is_err());
}

#[test]
fn escaped_keys_round_trip() {
    let loaded = load_index(text_chars("{\"a\\\\b\\\"c\":{\"D\":2}}").as_slice()).expect(
        "escaped identifiers must load",
    );
    assert_eq!(loaded.docs[0].id, text_chars("a\\b\"c"));
    let saved: String = save_index(&loaded).iter().collect();
    assert_eq!(saved, "{\"a\\\\b\\\"c\":{\"D\":2}}");
}
