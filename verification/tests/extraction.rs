use tfsearch::chars::text_chars;
use tfsearch::extract::extract_text;

#[test]
fn character_data_is_extracted_in_order() {
    let text = extract_text(b"<doc>alpha<b>beta</b>gamma</doc>").expect(
        "well-formed markup extracts",
    );
    assert_eq!(text, text_chars("alpha beta gamma "));
}

#[test]
fn malformed_markup_is_an_extraction_error() {
    assert!(extract_text(b"<doc><open></doc>").is_err());
    assert!(extract_text(b"not xml at all").is_err());
}

#[test]
fn markup_without_text_extracts_nothing() {
    let text = extract_text(b"<doc><a/><b/></doc>").expect("well-formed markup extracts");
    assert_eq!(text, Vec::<char>::new());
}
