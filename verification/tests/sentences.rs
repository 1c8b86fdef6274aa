use lextok::sentence_boundaries;

#[test]
fn one_sentence_covers_the_text() {
    let text = "Hello world.";
    let r = sentence_boundaries(text);
    assert_eq!(r, vec![(0, text.len())]);
}

#[test]
fn sentences_are_ordered_byte_ranges() {
    let text = "Mr. Fox jumped. [...] The dog was too lazy.";
    let r = sentence_boundaries(text);
    assert_eq!(r, vec![(0, 4), (4, 16), (22, text.len())]);
}

#[test]
fn empty_text_has_no_sentences() {
    let r = sentence_boundaries("");
    assert!(r.is_empty());
}
