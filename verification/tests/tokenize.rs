use lextok::{tokenize, Tagger};

fn tagger_of(lines: &[&str]) -> Tagger {
    let v: Vec<String> = lines.iter().map(|s| s.to_string()).collect();
    Tagger::from_lines(&v).unwrap()
}

fn empty_tagger() -> Tagger {
    tagger_of(&[])
}

#[test]
fn sentinel_is_first() {
    let t = empty_tagger();
    let toks = tokenize("Hello", &t);
    assert_eq!(toks[0].text, "");
    assert_eq!(toks[0].lower, "");
    assert_eq!(toks[0].postags, vec!["SENT_START".to_string()]);
    assert_eq!(toks[0].char_span, (0, 0));
    assert_eq!(toks[0].byte_span, (0, 0));
    assert!(toks[0].tags.is_empty());
    assert_eq!(toks[0].inflections, vec!["".to_string()]);
    assert_eq!(toks[0].lower_inflections, vec!["".to_string()]);
    assert!(!toks[0].has_space_before);
}

#[test]
fn empty_input_yields_only_sentinel() {
    let t = empty_tagger();
    let toks = tokenize("", &t);
    assert_eq!(toks.len(), 1);
    assert_eq!(toks[0].postags, vec!["SENT_START".to_string()]);
}

#[test]
fn delimiter_splitting() {
    let t = empty_tagger();
    let toks = tokenize("Hello, world!", &t);
    let texts: Vec<&str> = toks[1..].iter().map(|x| x.text.as_str()).collect();
    assert_eq!(texts, vec!["Hello", ",", "world", "!"]);
}

#[test]
fn delimiter_splitting_spans() {
    let t = empty_tagger();
    let toks = tokenize("Hello, world!", &t);
    assert_eq!(toks[1].char_span, (0, 5));
    assert_eq!(toks[2].char_span, (5, 6));
    assert_eq!(toks[3].char_span, (7, 12));
    assert_eq!(toks[4].char_span, (12, 13));
    for tok in &toks[1..] {
        assert_eq!(tok.byte_span, tok.char_span);
    }
    assert!(!toks[1].has_space_before);
    assert!(!toks[2].has_space_before);
    assert!(toks[3].has_space_before);
    assert!(!toks[4].has_space_before);
}

#[test]
fn url_atomicity() {
    let t = empty_tagger();
    let toks = tokenize("visit https://example.com/a?b=1 now", &t);
    let texts: Vec<&str> = toks[1..].iter().map(|x| x.text.as_str()).collect();
    assert_eq!(texts, vec!["visit", "https://example.com/a?b=1", "now"]);
    assert_eq!(toks[2].char_span, (6, 31));
}

#[test]
fn bare_domain_is_atomic() {
    let t = empty_tagger();
    let toks = tokenize("see example.com now", &t);
    let texts: Vec<&str> = toks[1..].iter().map(|x| x.text.as_str()).collect();
    assert_eq!(texts, vec!["see", "example.com", "now"]);
}

#[test]
fn www_domain_keeps_trailing_delimiter_out() {
    let t = empty_tagger();
    let toks = tokenize("Besuch www.test.de!", &t);
    let texts: Vec<&str> = toks[1..].iter().map(|x| x.text.as_str()).collect();
    assert_eq!(texts, vec!["Besuch", "www.test.de", "!"]);
}

#[test]
fn unknown_word_fallback() {
    let t = tagger_of(&["run\trun\tVB"]);
    let toks = tokenize("xyzzyqqq", &t);
    assert_eq!(toks.len(), 2);
    assert!(toks[1].tags.is_empty());
    assert_eq!(toks[1].postags, vec!["UNKNOWN".to_string()]);
    assert_eq!(toks[1].inflections, vec!["xyzzyqqq".to_string()]);
    assert_eq!(toks[1].lower_inflections, vec!["xyzzyqqq".to_string()]);
}

#[test]
fn lower_is_lowercase_of_text() {
    let t = empty_tagger();
    let toks = tokenize("HeLLo WoRLD", &t);
    assert_eq!(toks[1].text, "HeLLo");
    assert_eq!(toks[1].lower, "hello");
    assert_eq!(toks[2].text, "WoRLD");
    assert_eq!(toks[2].lower, "world");
}

#[test]
fn dictionary_annotations() {
    let t = tagger_of(&["run\trun\tVB", "run\trunning\tNN"]);
    let toks = tokenize("Run", &t);
    assert_eq!(toks[1].text, "Run");
    assert_eq!(toks[1].lower, "run");
    assert_eq!(
        toks[1].tags,
        vec![
            ("run".to_string(), "VB".to_string()),
            ("running".to_string(), "NN".to_string())
        ]
    );
    assert_eq!(
        toks[1].inflections,
        vec!["run".to_string(), "running".to_string(), "Run".to_string()]
    );
    assert_eq!(
        toks[1].lower_inflections,
        vec!["run".to_string(), "running".to_string(), "run".to_string()]
    );
    assert_eq!(toks[1].postags, vec!["VB".to_string(), "NN".to_string()]);
}

#[test]
fn multibyte_byte_spans() {
    let t = empty_tagger();
    // 'é' takes two bytes; '…' (a delimiter) takes three.
    let toks = tokenize("aé…b", &t);
    let texts: Vec<&str> = toks[1..].iter().map(|x| x.text.as_str()).collect();
    assert_eq!(texts, vec!["aé", "…", "b"]);
    assert_eq!(toks[1].char_span, (0, 2));
    assert_eq!(toks[1].byte_span, (0, 3));
    assert_eq!(toks[2].char_span, (2, 3));
    assert_eq!(toks[2].byte_span, (3, 6));
    assert_eq!(toks[3].char_span, (3, 4));
    assert_eq!(toks[3].byte_span, (6, 7));
}

#[test]
fn delimiter_only_input() {
    let t = empty_tagger();
    let toks = tokenize("...", &t);
    let texts: Vec<&str> = toks[1..].iter().map(|x| x.text.as_str()).collect();
    assert_eq!(texts, vec![".", ".", "."]);
}

#[test]
fn whitespace_only_input() {
    let t = empty_tagger();
    let toks = tokenize("  \t ", &t);
    assert_eq!(toks.len(), 1);
}

#[test]
fn spans_cover_input_around_whitespace() {
    let t = empty_tagger();
    let toks = tokenize("a  b", &t);
    assert_eq!(toks[1].char_span, (0, 1));
    assert_eq!(toks[2].char_span, (3, 4));
    assert!(toks[2].has_space_before);
}
