use tfsearch::chars::text_chars;
use tfsearch::tf::index_document;

#[test]
fn counts_are_case_folded_and_exact() {
    let tf = index_document("Hello hello WORLD 7 hello");
    assert_eq!(tf.count_of(text_chars("HELLO").as_slice()), 3);
    assert_eq!(tf.count_of(text_chars("WORLD").as_slice()), 1);
    assert_eq!(tf.count_of(text_chars("7").as_slice()), 1);
    assert_eq!(tf.count_of(text_chars("hello").as_slice()), 0);
    assert_eq!(tf.count_of(text_chars("absent").as_slice()), 0);
}

#[test]
fn total_is_the_token_count() {
    let tf = index_document("one two two three; three three");
    // six words and one symbol
    assert_eq!(tf.total, 7);
    let sum: u64 = tf.entries.iter().map(|e| e.1).sum();
    assert_eq!(sum, tf.total);
}

#[test]
fn no_key_maps_to_zero() {
    let tf = index_document("a b a c b a");
    for e in tf.entries.iter() {
        assert!(e.1 >= 1);
    }
    assert_eq!(tf.total, 6);
}

#[test]
fn empty_document_yields_empty_table() {
    let tf = index_document("");
    assert_eq!(tf.entries.len(), 0);
    assert_eq!(tf.total, 0);
}
